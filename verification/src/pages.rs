//! Pages of a page store: what is stored, and how it is turned into plaintext.

use opensqlany::{ApModel, Page, PageStore, PageType, SlottedPage};
use vstd::prelude::*;

verus! {

/// A page store: the pages of one file, held in memory.
#[verifier::external_type_specification]
#[verifier::external_body]
pub struct ExPageStore(PageStore);

/// What a page store learned about the fill that hides its pages.
#[verifier::external_type_specification]
#[verifier::external_body]
pub struct ExApModel(ApModel);

/// Bytes in one page.
pub const PAGE_SIZE: usize = 4096;

/// Offset at which the page trailer begins.
pub const TRAILER_START: usize = 0xFF0;

/// Offset of the page-type byte inside the trailer.
pub const PAGE_TYPE_OFFSET: usize = 0xFF2;

/// Smallest offset at which a row can start.
pub const ROW_OFFSET_MIN: usize = 0x20;

/// The pages that a store holds, as stored, by page number.
pub uninterp spec fn stored_pages(store: PageStore) -> Seq<Seq<u8>>;

/// `PageStore::page_count`: the number of pages that the store holds.
#[verifier::external_body]
pub(crate) fn page_count(store: &PageStore) -> (n: u64)
    ensures
        n == stored_pages(*store).len(),
{
    store.page_count()
}

/// `PageStore::page` and the bytes of the page it hands out: the page of that
/// number, exactly one page long, or nothing when the store has no such page.
#[verifier::external_body]
pub(crate) fn stored_page(store: &PageStore, pn: u64) -> (raw: Option<&[u8]>)
    ensures
        match raw {
            Some(bytes) => {
                &&& pn < stored_pages(*store).len()
                &&& bytes@ == stored_pages(*store)[pn as int]
                &&& bytes@.len() == PAGE_SIZE
            },
            None => pn >= stored_pages(*store).len(),
        },
{
    match store.page(pn) {
        Ok(page) => Some(page.bytes()),
        Err(_) => None,
    }
}

/// Kinds of page, as the trailer's type byte names them.
#[derive(Debug, Clone, Copy, PartialEq, Eq, Structural)]
pub enum PageKind {
    /// Data page.
    Extent,
    /// Free-space map.
    Alloc,
    /// Map of pages.
    PageTable,
    /// Header block.
    Header,
    /// Catalog page.
    Catalog,
    /// Bootstrap page.
    Bootstrap,
    /// Index page.
    Index,
    /// Type `G`, of unknown use.
    UnknownG,
    /// Any other type byte.
    Other(u8),
}

/// The kind that a type byte stands for; the case of the letter is ignored.
pub open spec fn page_kind(b: u8) -> PageKind {
    if b == 0x45 || b == 0x65 {
        PageKind::Extent
    } else if b == 0x41 || b == 0x61 {
        PageKind::Alloc
    } else if b == 0x4D || b == 0x6D {
        PageKind::PageTable
    } else if b == 0x48 || b == 0x68 {
        PageKind::Header
    } else if b == 0x43 || b == 0x63 {
        PageKind::Catalog
    } else if b == 0x40 {
        PageKind::Bootstrap
    } else if b == 0x49 || b == 0x69 {
        PageKind::Index
    } else if b == 0x47 || b == 0x67 {
        PageKind::UnknownG
    } else {
        PageKind::Other(b)
    }
}

/// `PageTrailer::page_type`, read off a page given by its bytes: the kind that
/// the byte at `0xFF2` stands for.
#[verifier::external_body]
pub(crate) fn kind_of_page(pn: u64, raw: &[u8]) -> (kind: PageKind)
    requires
        raw@.len() == PAGE_SIZE,
    ensures
        kind == page_kind(raw@[PAGE_TYPE_OFFSET as int]),
{
    match Page::from_bytes(pn, raw).trailer().page_type() {
        PageType::Extent => PageKind::Extent,
        PageType::Alloc => PageKind::Alloc,
        PageType::Map => PageKind::PageTable,
        PageType::Header => PageKind::Header,
        PageType::Catalog => PageKind::Catalog,
        PageType::Bootstrap => PageKind::Bootstrap,
        PageType::Index => PageKind::Index,
        PageType::UnknownG => PageKind::UnknownG,
        PageType::Other(b) => PageKind::Other(b),
    }
}

/// First byte of the fill of sector `sector` of page `pn`, for the
/// calibration byte `bv`.
pub open spec fn fill_base(pn: u64, sector: int, bv: u8) -> int {
    (bv + pn + sector - 4 * ((pn as int % 16) / 2)) % 256
}

/// `plain` is the stored page `raw` with the fill taken off: byte by byte, in
/// each sector of 512 bytes, less an arithmetic progression that starts at
/// `fill_base` and has one step per sector. The trailer is not filled.
pub open spec fn fill_removed(raw: Seq<u8>, pn: u64, bv: u8, plain: Seq<u8>) -> bool {
    &&& plain.len() == PAGE_SIZE
    &&& plain.skip(TRAILER_START as int) == raw.skip(TRAILER_START as int)
    &&& exists|step: Seq<u8>|
        {
            &&& step.len() == 8
            &&& forall|i: int|
                0 <= i < TRAILER_START ==> #[trigger] plain[i] == (raw[i] - fill_base(
                    pn,
                    i / 512,
                    bv,
                ) - (i % 512) * step[i / 512]) % 256
        }
}

/// Page types whose body is fill alone on most pages. Their calibration byte is
/// put to a vote among the sectors, and a tied vote can go either way.
pub open spec fn is_fill_type(b: u8) -> bool {
    b == 0x40 || b == 0x43 || b == 0x48 || b == 0x4D
}

/// The plaintext of a stored page under a given calibration byte.
pub uninterp spec fn plaintext_with_bv(raw: Seq<u8>, pn: u64, bv: u8) -> Seq<u8>;

/// The plaintext of a stored page whose calibration byte is worked out from
/// the page itself.
pub uninterp spec fn plaintext(raw: Seq<u8>, pn: u64) -> Seq<u8>;

/// `ApModel::deobfuscate_with_bv`: takes the fill for `bv` off a page. The steps
/// are worked out from the page; what the model learned plays no part.
#[verifier::external_body]
pub(crate) fn deobfuscate_with_bv(model: &ApModel, raw: &[u8], pn: u64, bv: u8) -> (plain: Vec<u8>)
    requires
        raw@.len() == PAGE_SIZE,
    ensures
        plain@ == plaintext_with_bv(raw@, pn, bv),
        fill_removed(raw@, pn, bv, plain@),
{
    model.deobfuscate_with_bv(raw, pn, bv)
}

/// `ApModel::deobfuscate_with_store`: takes the fill off page `pn` of the store,
/// working out the page's calibration byte. For a page of a fill type the byte
/// is the winner of a vote, and which of two tied bytes wins is left open:
/// there only the shape of the result is known.
#[verifier::external_body]
pub(crate) fn deobfuscate_with_store(
    model: &ApModel,
    raw: &[u8],
    pn: u64,
    store: &PageStore,
) -> (plain: Vec<u8>)
    requires
        pn < stored_pages(*store).len(),
        raw@ == stored_pages(*store)[pn as int],
        raw@.len() == PAGE_SIZE,
    ensures
        !is_fill_type(raw@[PAGE_TYPE_OFFSET as int]) ==> plain@ == plaintext(raw@, pn),
        exists|bv: u8| fill_removed(raw@, pn, bv, plain@),
{
    model.deobfuscate_with_store(raw, pn, store)
}

/// The calibration byte that is known for page `pn`: `calibration` holds one entry
/// per page number, and a page past its end has none.
pub open spec fn calibrated(calibration: Seq<Option<u8>>, pn: u64) -> Option<u8> {
    if pn < calibration.len() {
        calibration[pn as int]
    } else {
        None
    }
}

/// The plaintext of a stored page whose type is no fill type.
pub open spec fn page_plaintext(raw: Seq<u8>, pn: u64, bv: Option<u8>) -> Seq<u8> {
    match bv {
        Some(b) => plaintext_with_bv(raw, pn, b),
        None => plaintext(raw, pn),
    }
}

/// `plain` is a plaintext that decoding page `pn` can give.
pub open spec fn decodes_to(raw: Seq<u8>, pn: u64, bv: Option<u8>, plain: Seq<u8>) -> bool {
    &&& plain.len() == PAGE_SIZE
    &&& bv is Some || !is_fill_type(raw[PAGE_TYPE_OFFSET as int]) ==> plain == page_plaintext(
        raw,
        pn,
        bv,
    )
    &&& exists|b: u8| #[trigger] fill_removed(raw, pn, b, plain) && (bv is Some ==> bv == Some(b))
}

/// Decodes page `pn` of the store: with the calibration byte that is known for
/// the page, or else with one that is worked out from the page.
pub fn decode_page(
    store: &PageStore,
    model: &ApModel,
    calibration: &[Option<u8>],
    pn: u64,
) -> (plain: Option<Vec<u8>>)
    ensures
        match plain {
            Some(bytes) => pn < stored_pages(*store).len() && decodes_to(
                stored_pages(*store)[pn as int],
                pn,
                calibrated(calibration@, pn),
                bytes@,
            ),
            None => pn >= stored_pages(*store).len(),
        },
        plain is Some && pn < calibration@.len() && calibration@[pn as int] is Some ==> plain->0@
            == plaintext_with_bv(
            stored_pages(*store)[pn as int],
            pn,
            calibration@[pn as int]->0,
        ),
        plain is Some && (pn >= calibration@.len() || calibration@[pn as int] is None) && !seq![
            '@' as u8,
            'C' as u8,
            'H' as u8,
            'M' as u8,
        ].contains(stored_pages(*store)[pn as int][0xFF2]) ==> plain->0@ == plaintext(
            stored_pages(*store)[pn as int],
            pn,
        ),
{
    proof {
        let fills = seq!['@' as u8, 'C' as u8, 'H' as u8, 'M' as u8];
        assert(fills[0] == 0x40 && fills[1] == 0x43 && fills[2] == 0x48 && fills[3] == 0x4D);
    }
    match stored_page(store, pn) {
        Some(raw) => {
            let bv: Option<u8> = if pn < calibration.len() as u64 {
                calibration[pn as usize]
            } else {
                None
            };
            match bv {
                Some(b) => Some(deobfuscate_with_bv(model, raw, pn, b)),
                None => Some(deobfuscate_with_store(model, raw, pn, store)),
            }
        },
        None => None,
    }
}

/// The plaintext that counts for a page: under the calibration byte that is known for
/// the page, and under the one that the page shows where none is known.
pub proof fn lemma_page_plaintext(raw: Seq<u8>, calibration: Seq<Option<u8>>, pn: u64)
    ensures
        pn < calibration.len() && calibration[pn as int] is Some ==> page_plaintext(
            raw,
            pn,
            calibrated(calibration, pn),
        ) == plaintext_with_bv(raw, pn, calibration[pn as int]->0),
        pn >= calibration.len() || calibration[pn as int] is None ==> page_plaintext(
            raw,
            pn,
            calibrated(calibration, pn),
        ) == plaintext(raw, pn),
{
}

/// The kind of page `pn` of the store.
pub fn kind_of_stored(store: &PageStore, pn: u64) -> (kind: Option<PageKind>)
    ensures
        match kind {
            Some(k) => pn < stored_pages(*store).len() && k == page_kind(
                stored_pages(*store)[pn as int][PAGE_TYPE_OFFSET as int],
            ),
            None => pn >= stored_pages(*store).len(),
        },
{
    match stored_page(store, pn) {
        Some(raw) => Some(kind_of_page(pn, raw)),
        None => None,
    }
}

/// The offsets of the rows that the slot directory of a plaintext page lists,
/// ascending. Empty when the page has no slot directory.
pub uninterp spec fn row_offsets(plain: Seq<u8>) -> Seq<u16>;

/// The bytes of the `k`-th row: up to the next row, or up to the trailer.
pub open spec fn row_body(plain: Seq<u8>, offsets: Seq<u16>, k: int) -> Seq<u8> {
    plain.subrange(
        offsets[k] as int,
        if k + 1 < offsets.len() {
            offsets[k + 1] as int
        } else {
            TRAILER_START as int
        },
    )
}

/// `SlottedPage::parse` and `SlottedPage::row_bytes` on a plaintext page: the
/// live slots of its directory, in ascending order, each with the bytes up to
/// the next one. How the directory is found is not stated.
#[verifier::external_body]
pub(crate) fn slotted_rows<'a>(pn: u64, plain: &'a [u8]) -> (rows: Vec<(u16, &'a [u8])>)
    requires
        plain@.len() == PAGE_SIZE,
    ensures
        rows@.map_values(|row: (u16, &[u8])| row.0) == row_offsets(plain@),
        forall|k: int|
            0 <= k < rows@.len() ==> (#[trigger] rows@[k]).1@ == row_body(
                plain@,
                row_offsets(plain@),
                k,
            ),
        forall|k: int|
            0 <= k < rows@.len() ==> ROW_OFFSET_MIN <= (#[trigger] rows@[k]).0 < TRAILER_START,
        forall|j: int, k: int| 0 <= j < k < rows@.len() ==> rows@[j].0 < rows@[k].0,
{
    SlottedPage::parse(Page::from_bytes(pn, plain)).row_bytes()
}

} // verus!
