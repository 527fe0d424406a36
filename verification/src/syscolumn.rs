//! `SYSCOLUMN` catalog rows.
//!
//! Each row stores one column definition:
//!
//! ```text
//! <name_len u8> <name>
//! [<default_len u8> <default>]?            -- optional, may be absent
//! 01 52 00 01 00 00 00 00                  -- 8-byte fixed tag
//! <row_id u32 LE>                          -- per-row id (ignored)
//! <owner_object_id u32 LE>                 -- table id
//! <column_id u32 LE>                       -- ordinal within the table
//! <nulls_flag u8> <pad u8>
//! 01 <domain_char u8> <width u8>
//! ```
//!
//! The name is found by walking back from the tag and trying name lengths
//! `3..=40`, optionally peeling off a default value. The first match whose
//! length byte sits immediately before an identifier wins.

use opensqlany::{ApModel, PageStore};
use vstd::prelude::*;

use crate::order;
use crate::order::distinct_order;
use crate::pages;
use crate::pages::{
    decode_page, kind_of_stored, page_count, slotted_rows, PageKind, PAGE_SIZE, PAGE_TYPE_OFFSET,
};
use crate::text;
use crate::text::ascii_text;

verus! {

/// Fixed 8-byte anchor that precedes the numeric portion of every row body.
pub const SYSCOLUMN_TAG: [u8; 8] = [0x01, 0x52, 0x00, 0x01, 0x00, 0x00, 0x00, 0x00];

/// Shortest column name.
pub const NAME_LEN_MIN: usize = 3;

/// Longest column name.
pub const NAME_LEN_MAX: usize = 40;

/// Possible byte gaps between the column name and the tag. A gap that is not
/// zero skips over a default value.
pub const DEFAULT_PEELS: [usize; 7] = [0, 1, 2, 3, 4, 8, 16];

/// Number of name lengths tried for each gap.
pub const NAME_LENGTHS: usize = 38;

/// Number of attempts to find a name: every length for every gap.
pub const ATTEMPTS: usize = 266;

/// Bytes of a row from the start of its tag.
pub const TAGGED_LEN: usize = 25;

/// One parsed `SYSCOLUMN` row.
#[derive(Debug, Clone, PartialEq, Eq)]
pub struct SysColumn {
    /// Column name (ASCII identifier).
    pub name: String,
    /// Table id. Bridged to a table name by the owner bridge.
    pub owner_object_id: u32,
    /// Ordinal position of this column inside its owning table.
    pub column_id: u32,
    /// Nullability/flags byte.
    pub nulls_flag: u8,
    /// Single-character domain code.
    pub domain_char: u8,
    /// Declared column width / precision byte.
    pub width: u8,
    /// Page on which this row was found.
    pub page_number: u64,
    /// Byte offset of the tag within the decoded page body.
    pub tag_offset: usize,
}

/// A `SYSCOLUMN` row as a mathematical value.
pub struct ColumnView {
    pub name: Seq<char>,
    pub owner_object_id: u32,
    pub column_id: u32,
    pub nulls_flag: u8,
    pub domain_char: u8,
    pub width: u8,
    pub page_number: u64,
    pub tag_offset: int,
}

impl View for SysColumn {
    type V = ColumnView;

    open spec fn view(&self) -> ColumnView {
        ColumnView {
            name: self.name@,
            owner_object_id: self.owner_object_id,
            column_id: self.column_id,
            nulls_flag: self.nulls_flag,
            domain_char: self.domain_char,
            width: self.width,
            page_number: self.page_number,
            tag_offset: self.tag_offset as int,
        }
    }
}

/// The rows of a list, as mathematical values.
pub open spec fn column_views(columns: Seq<SysColumn>) -> Seq<ColumnView> {
    columns.map_values(|c: SysColumn| c@)
}

/// ASCII letters.
pub open spec fn is_letter(b: u8) -> bool {
    0x41 <= b <= 0x5A || 0x61 <= b <= 0x7A
}

/// ASCII digits.
pub open spec fn is_digit(b: u8) -> bool {
    0x30 <= b <= 0x39
}

/// An identifier: letters, digits and underscores, not starting with a digit.
pub open spec fn is_identifier(s: Seq<u8>) -> bool {
    &&& s.len() > 0
    &&& forall|i: int| 0 <= i < s.len() ==> is_letter(#[trigger] s[i]) || is_digit(s[i]) || s[i] == 0x5F
    &&& !is_digit(s[0])
}

/// The little-endian number in the four bytes at `at`.
pub open spec fn u32_le_at(s: Seq<u8>, at: int) -> u32 {
    (s[at] + 0x100 * s[at + 1] + 0x1_0000 * s[at + 2] + 0x100_0000 * s[at + 3]) as u32
}

/// Reads the little-endian number in the four bytes at `at`.
pub fn read_u32_le(s: &[u8], at: usize) -> (n: u32)
    requires
        at + 4 <= s@.len(),
    ensures
        n == u32_le_at(s@, at as int),
        n == s@[at as int] + 0x100 * s@[at + 1] + 0x1_0000 * s@[at + 2] + 0x100_0000 * s@[at + 3],
{
    s[at] as u32 + 0x100 * (s[at + 1] as u32) + 0x1_0000 * (s[at + 2] as u32) + 0x100_0000 * (s[at
        + 3] as u32)
}

fn is_letter_byte(b: u8) -> (r: bool)
    ensures
        r == is_letter(b),
{
    (0x41 <= b && b <= 0x5A) || (0x61 <= b && b <= 0x7A)
}

fn is_digit_byte(b: u8) -> (r: bool)
    ensures
        r == is_digit(b),
{
    0x30 <= b && b <= 0x39
}

fn is_identifier_at(body: &[u8], start: usize, end: usize) -> (r: bool)
    requires
        start <= end <= body@.len(),
    ensures
        r == is_identifier(body@.subrange(start as int, end as int)),
{
    let ghost s = body@.subrange(start as int, end as int);
    if start == end {
        return false;
    }
    for i in start..end
        invariant
            start < end <= body@.len(),
            s == body@.subrange(start as int, end as int),
            forall|j: int|
                0 <= j < i - start ==> is_letter(#[trigger] s[j]) || is_digit(s[j]) || s[j] == 0x5F,
    {
        let b: u8 = body[i];
        assert(b == s[i - start]);
        if !(is_letter_byte(b) || is_digit_byte(b) || b == 0x5F) {
            return false;
        }
    }
    assert(s[0] == body@[start as int]);
    !is_digit_byte(body[start])
}

/// A name of `len` bytes, its length byte before it, ends `peel` bytes before
/// `tag`.
pub open spec fn has_name(body: Seq<u8>, tag: int, peel: int, len: int) -> bool {
    &&& tag - peel - len - 1 >= 0
    &&& body[tag - peel - len - 1] == len
    &&& is_identifier(body.subrange(tag - peel - len, tag - peel))
}

/// The gap tried in the `n`-th attempt to find a name.
pub open spec fn attempt_peel(n: int) -> int {
    DEFAULT_PEELS@[n / NAME_LENGTHS as int] as int
}

/// The name length tried in the `n`-th attempt: all lengths for one gap, from
/// the shortest up, before the next gap.
pub open spec fn attempt_len(n: int) -> int {
    NAME_LEN_MIN + n % NAME_LENGTHS as int
}

/// The name found by the first attempt from the `n`-th on that finds one.
pub open spec fn name_from_attempt(body: Seq<u8>, tag: int, n: int) -> Option<Seq<char>>
    decreases ATTEMPTS - n,
{
    if n < 0 || n >= ATTEMPTS {
        None
    } else if has_name(body, tag, attempt_peel(n), attempt_len(n)) {
        let end = tag - attempt_peel(n);
        Some(text::ascii_chars(body.subrange(end - attempt_len(n), end)))
    } else {
        name_from_attempt(body, tag, n + 1)
    }
}

/// The column name that stands before the tag at `tag`.
pub open spec fn name_before(body: Seq<u8>, tag: int) -> Option<Seq<char>> {
    name_from_attempt(body, tag, 0)
}

/// Walks back from `tag_pos` and tries to find a length-prefixed identifier that
/// ends immediately before the tag, optionally separated from it by a default
/// value.
pub fn find_name_before(body: &[u8], tag_pos: usize) -> (name: Option<String>)
    requires
        tag_pos <= body@.len(),
    ensures
        match name {
            Some(text) => name_before(body@, tag_pos as int) == Some(text@),
            None => name_before(body@, tag_pos as int) is None,
        },
{
    for k in 0..7usize
        invariant
            tag_pos <= body@.len(),
            name_before(body@, tag_pos as int) == name_from_attempt(
                body@,
                tag_pos as int,
                (NAME_LENGTHS * k) as int,
            ),
    {
        let peel: usize = DEFAULT_PEELS[k];
        let mut len: usize = NAME_LEN_MIN;
        while len <= NAME_LEN_MAX
            invariant
                k < 7,
                tag_pos <= body@.len(),
                peel == DEFAULT_PEELS@[k as int],
                NAME_LEN_MIN <= len <= NAME_LEN_MAX + 1,
                name_before(body@, tag_pos as int) == name_from_attempt(
                    body@,
                    tag_pos as int,
                    NAME_LENGTHS * k + len - NAME_LEN_MIN,
                ),
            decreases NAME_LEN_MAX + 1 - len,
        {
            let ghost n = NAME_LENGTHS * k + len - NAME_LEN_MIN;
            assert(n / NAME_LENGTHS as int == k && n % NAME_LENGTHS as int == len - NAME_LEN_MIN);
            assert(attempt_peel(n) == peel && attempt_len(n) == len);
            if tag_pos >= peel && tag_pos - peel >= len + 1 {
                let end: usize = tag_pos - peel;
                if body[end - len - 1] as usize == len && is_identifier_at(body, end - len, end) {
                    return Some(ascii_text(vstd::slice::slice_subrange(body, end - len, end)));
                }
            }
            len = len + 1;
        }
    }
    None
}

/// The tag stands at `i`.
pub open spec fn tag_at(body: Seq<u8>, i: int) -> bool {
    0 <= i && i + SYSCOLUMN_TAG@.len() <= body.len() && body.subrange(
        i,
        i + SYSCOLUMN_TAG@.len(),
    ) == SYSCOLUMN_TAG@
}

/// A row stands around position `i`: a whole tag and what follows it fit into
/// the body, a name stands before the tag, and the marker and the domain code
/// after it are in place.
pub open spec fn is_row(body: Seq<u8>, i: int) -> bool {
    &&& i + TAGGED_LEN <= body.len()
    &&& tag_at(body, i)
    &&& name_before(body, i) is Some
    &&& body[i + 22] == 0x01
    &&& is_letter(body[i + 23])
}

/// The row whose tag stands at `i`.
pub open spec fn row_view(body: Seq<u8>, pn: u64, i: int) -> ColumnView {
    ColumnView {
        name: name_before(body, i)->0,
        owner_object_id: u32_le_at(body, i + 12),
        column_id: u32_le_at(body, i + 16),
        nulls_flag: body[i + 20],
        domain_char: body[i + 23],
        width: body[i + 24],
        page_number: pn,
        tag_offset: i,
    }
}

/// The rows whose tags stand at `i` or later, in the order of their tags.
pub open spec fn rows_from(body: Seq<u8>, pn: u64, i: int) -> Seq<ColumnView>
    decreases body.len() - i,
{
    if i < 0 || i >= body.len() {
        seq![]
    } else if is_row(body, i) {
        seq![row_view(body, pn, i)] + rows_from(body, pn, i + 1)
    } else {
        rows_from(body, pn, i + 1)
    }
}

/// The rows of a row body.
pub open spec fn rows_of(body: Seq<u8>, pn: u64) -> Seq<ColumnView> {
    rows_from(body, pn, 0)
}

/// The row, with its tag `by` bytes further on.
pub open spec fn moved(c: ColumnView, by: int) -> ColumnView {
    ColumnView { tag_offset: c.tag_offset + by, ..c }
}

/// The rows, with their tags `by` bytes further on.
pub open spec fn moved_rows(rows: Seq<ColumnView>, by: int) -> Seq<ColumnView> {
    rows.map_values(|c: ColumnView| moved(c, by))
}

/// Two tags never overlap.
proof fn lemma_tags_apart(body: Seq<u8>, i: int, j: int)
    requires
        tag_at(body, i),
        i < j < i + 8,
    ensures
        !tag_at(body, j),
{
    let t = SYSCOLUMN_TAG@;
    if tag_at(body, j) {
        assert(body.subrange(i, i + 8)[j - i] == t[j - i]);
        assert(body.subrange(j, j + 8)[0] == t[0]);
        assert(t[j - i] == 0x01);
        assert(j - i == 3);
        assert(body.subrange(i, i + 8)[4] == t[4]);
        assert(body.subrange(j, j + 8)[1] == t[1]);
    }
}

/// Past a tag, there is no row before its eight bytes are over.
proof fn lemma_skip_tag(body: Seq<u8>, pn: u64, i: int, j: int)
    requires
        tag_at(body, i),
        i < j <= i + 8,
    ensures
        rows_from(body, pn, j) == rows_from(body, pn, i + 8),
    decreases i + 8 - j,
{
    if j < i + 8 {
        lemma_tags_apart(body, i, j);
        lemma_skip_tag(body, pn, i, j + 1);
    }
}

/// Where no whole row fits any more, there is none.
proof fn lemma_no_rows_left(body: Seq<u8>, pn: u64, i: int)
    requires
        0 <= i,
        i + TAGGED_LEN > body.len(),
    ensures
        rows_from(body, pn, i) == Seq::<ColumnView>::empty(),
    decreases body.len() - i,
{
    if i < body.len() {
        lemma_no_rows_left(body, pn, i + 1);
    }
}

fn is_tag_at(body: &[u8], i: usize) -> (r: bool)
    requires
        i + 8 <= body@.len(),
    ensures
        r == tag_at(body@, i as int),
{
    let ghost s = body@.subrange(i as int, i + 8);
    for k in 0..8usize
        invariant
            i + 8 <= body.len(),
            s == body@.subrange(i as int, i + 8),
            forall|j: int| 0 <= j < k ==> s[j] == SYSCOLUMN_TAG@[j],
    {
        assert(s[k as int] == body@[i + k]);
        if body[i + k] != SYSCOLUMN_TAG[k] {
            return false;
        }
    }
    assert(s =~= SYSCOLUMN_TAG@);
    true
}

/// Parses the rows out of a body that starts `base` bytes into a page, and appends
/// them to `out`.
fn append_rows(body: &[u8], base: usize, pn: u64, out: &mut Vec<SysColumn>)
    requires
        base + body@.len() <= usize::MAX,
    ensures
        column_views(final(out)@) == column_views(old(out)@) + moved_rows(
            rows_of(body@, pn),
            base as int,
        ),
        final(out)@.take(old(out)@.len() as int) == old(out)@,
{
    let n: usize = body.len();
    let ghost before = out@;
    let mut i: usize = 0;
    while i < n && n - i >= TAGGED_LEN
        invariant
            n == body@.len(),
            i <= n,
            base + n <= usize::MAX,
            before.len() <= out@.len(),
            out@.take(before.len() as int) == before,
            column_views(before) + moved_rows(rows_of(body@, pn), base as int) == column_views(out@)
                + moved_rows(rows_from(body@, pn, i as int), base as int),
        decreases n - i,
    {
        if !is_tag_at(body, i) {
            i = i + 1;
            continue;
        }
        proof {
            lemma_skip_tag(body@, pn, i as int, i + 1);
        }
        let found = find_name_before(body, i);
        if body[i + 22] == 0x01 && is_letter_byte(body[i + 23]) {
            if let Some(name) = found {
                let ghost so_far = out@;
                let column = SysColumn {
                    name,
                    owner_object_id: read_u32_le(body, i + 12),
                    column_id: read_u32_le(body, i + 16),
                    nulls_flag: body[i + 20],
                    domain_char: body[i + 23],
                    width: body[i + 24],
                    page_number: pn,
                    tag_offset: base + i,
                };
                let ghost rest = moved_rows(rows_from(body@, pn, i + 8), base as int);
                assert(column@ == moved(row_view(body@, pn, i as int), base as int));
                assert(moved_rows(rows_from(body@, pn, i as int), base as int) =~= seq![column@]
                    + rest);
                out.push(column);
                assert(column_views(out@) =~= column_views(so_far).push(column@));
                assert(out@.take(before.len() as int) =~= so_far.take(before.len() as int));
                assert(column_views(out@) + rest =~= column_views(so_far) + (seq![column@] + rest));
            }
        }
        i = i + 8;
    }
    proof {
        lemma_no_rows_left(body@, pn, i as int);
        assert(column_views(out@) + moved_rows(Seq::<ColumnView>::empty(), base as int)
            =~= column_views(out@));
    }
}

/// Parses all `SYSCOLUMN` rows out of a single body, and appends them to `out`. Their
/// tag offsets count from the start of `body`.
pub fn parse_rows_in_body(body: &[u8], pn: u64, out: &mut Vec<SysColumn>)
    ensures
        column_views(final(out)@) == column_views(old(out)@) + rows_of(body@, pn),
        final(out)@.take(old(out)@.len() as int) == old(out)@,
{
    assert(body.len() == body@.len());
    append_rows(body, 0, pn, out);
    assert(moved_rows(rows_of(body@, pn), 0) =~= rows_of(body@, pn));
}

/// The rows in the first `k` slots of a plaintext page, with the offsets of their tags
/// within the page.
pub open spec fn rows_in_slots(plain: Seq<u8>, pn: u64, k: int) -> Seq<ColumnView>
    decreases k,
{
    if k <= 0 {
        seq![]
    } else {
        rows_in_slots(plain, pn, k - 1) + moved_rows(
            rows_of(pages::row_body(plain, pages::row_offsets(plain), k - 1), pn),
            pages::row_offsets(plain)[k - 1] as int,
        )
    }
}

/// The rows of a plaintext page: those of each slot in turn.
pub open spec fn page_rows(plain: Seq<u8>, pn: u64) -> Seq<ColumnView> {
    rows_in_slots(plain, pn, pages::row_offsets(plain).len() as int)
}

/// The slots lie on the page, before its trailer, in ascending order.
spec fn are_slots(offsets: Seq<u16>) -> bool {
    &&& forall|k: int| 0 <= k < offsets.len() ==> (#[trigger] offsets[k]) < pages::TRAILER_START
    &&& forall|j: int, k: int| 0 <= j < k < offsets.len() ==> offsets[j] < offsets[k]
}

/// Where the `k`-th slot of a page starts; past the last one, where the trailer does.
spec fn slot_start(offsets: Seq<u16>, k: int) -> int {
    if k < offsets.len() {
        offsets[k] as int
    } else {
        pages::TRAILER_START as int
    }
}

/// The page holds a tag where each of its rows says, and the rows come in the order
/// of their tags.
proof fn lemma_tags_on_page(plain: Seq<u8>, pn: u64, k: int)
    requires
        plain.len() == PAGE_SIZE,
        are_slots(pages::row_offsets(plain)),
        0 <= k <= pages::row_offsets(plain).len(),
    ensures
        forall|i: int|
            0 <= i < rows_in_slots(plain, pn, k).len() ==> {
                let c = #[trigger] rows_in_slots(plain, pn, k)[i];
                tag_at(plain, c.tag_offset) && c.page_number == pn && c.tag_offset < slot_start(
                    pages::row_offsets(plain),
                    k,
                )
            },
        forall|i: int, j: int|
            0 <= i < j < rows_in_slots(plain, pn, k).len() ==> (#[trigger] rows_in_slots(
                plain,
                pn,
                k,
            )[i]).tag_offset < (#[trigger] rows_in_slots(plain, pn, k)[j]).tag_offset,
    decreases k,
{
    if k > 0 {
        let offsets = pages::row_offsets(plain);
        let base = offsets[k - 1] as int;
        let body = pages::row_body(plain, offsets, k - 1);
        let found = rows_of(body, pn);
        let before = rows_in_slots(plain, pn, k - 1);
        let all = rows_in_slots(plain, pn, k);
        lemma_tags_on_page(plain, pn, k - 1);
        lemma_rows_from(body, pn, 0);
        assert(slot_start(offsets, k) == base + body.len());
        assert forall|i: int| before.len() <= i < all.len() implies {
            let c = #[trigger] all[i];
            tag_at(plain, c.tag_offset) && c.page_number == pn && base <= c.tag_offset
                && c.tag_offset < base + body.len()
        } by {
            let c = found[i - before.len()];
            assert(all[i] == moved(c, base));
            assert(is_row(body, c.tag_offset));
            assert(plain.subrange(base + c.tag_offset, base + c.tag_offset + 8) =~= body.subrange(
                c.tag_offset,
                c.tag_offset + 8,
            ));
        }
        assert(forall|i: int| 0 <= i < before.len() ==> #[trigger] all[i] == before[i]);
        assert forall|i: int, j: int| 0 <= i < j < all.len() implies (#[trigger] all[i]).tag_offset
            < (#[trigger] all[j]).tag_offset by {
            if i >= before.len() {
                assert(all[i] == moved(found[i - before.len()], base));
                assert(all[j] == moved(found[j - before.len()], base));
            }
        }
    }
}

/// Scans every row body on a single decoded page for `SYSCOLUMN` rows, and
/// appends them to `out`. Bytes past the page are ignored. The page holds the tag of
/// each row at the row's tag offset.
pub fn scan_page(plain: &[u8], pn: u64, out: &mut Vec<SysColumn>)
    requires
        plain@.len() >= PAGE_SIZE,
    ensures
        column_views(final(out)@) == column_views(old(out)@) + page_rows(
            plain@.take(PAGE_SIZE as int),
            pn,
        ),
        final(out)@.take(old(out)@.len() as int) == old(out)@,
        forall|i: int|
            old(out)@.len() <= i < final(out)@.len() ==> {
                let c = #[trigger] final(out)@[i];
                c.page_number == pn && tag_at(plain@, c.tag_offset as int)
            },
        forall|i: int, j: int|
            old(out)@.len() <= i < j < final(out)@.len() ==> (#[trigger] final(out)@[i]).tag_offset
                < (#[trigger] final(out)@[j]).tag_offset,
{
    let page = vstd::slice::slice_subrange(plain, 0, PAGE_SIZE);
    let ghost p = plain@.take(PAGE_SIZE as int);
    assert(page@ =~= p);
    let ghost before = out@;
    let rows = slotted_rows(pn, page);
    assert(rows@.len() == pages::row_offsets(p).len()) by {
        assert(rows@.map_values(|row: (u16, &[u8])| row.0).len() == rows@.len());
    }
    assert forall|j: int| 0 <= j < rows@.len() implies (#[trigger] rows@[j]).0 == pages::row_offsets(
        p,
    )[j] by {
        assert(rows@.map_values(|row: (u16, &[u8])| row.0)[j] == rows@[j].0);
    }
    assert(are_slots(pages::row_offsets(p))) by {
        assert forall|k: int| 0 <= k < pages::row_offsets(p).len() implies (
        #[trigger] pages::row_offsets(p)[k]) < pages::TRAILER_START by {
            assert(rows@[k].0 == pages::row_offsets(p)[k]);
        }
        assert forall|j: int, k: int| 0 <= j < k < pages::row_offsets(p).len() implies (
        #[trigger] pages::row_offsets(p)[j]) < (#[trigger] pages::row_offsets(p)[k]) by {
            assert(rows@[j].0 < rows@[k].0);
        }
    }
    assert(column_views(before) + rows_in_slots(p, pn, 0) =~= column_views(before));
    for k in 0..rows.len()
        invariant
            rows@.len() == pages::row_offsets(p).len(),
            forall|j: int|
                0 <= j < rows@.len() ==> (#[trigger] rows@[j]).1@ == pages::row_body(
                    p,
                    pages::row_offsets(p),
                    j,
                ),
            forall|j: int|
                0 <= j < rows@.len() ==> (#[trigger] rows@[j]).0 == pages::row_offsets(p)[j],
            p.len() == PAGE_SIZE,
            are_slots(pages::row_offsets(p)),
            before.len() <= out@.len(),
            out@.take(before.len() as int) == before,
            column_views(out@) == column_views(before) + rows_in_slots(p, pn, k as int),
    {
        let ghost so_far = out@;
        let (offset, body) = rows[k];
        assert(rows@[k as int].1@.len() <= PAGE_SIZE);
        append_rows(body, offset as usize, pn, out);
        assert(column_views(out@).len() == out@.len() && column_views(so_far).len()
            == so_far.len());
        assert(out@.take(before.len() as int) =~= out@.take(so_far.len() as int).take(
            before.len() as int,
        ));
        assert(column_views(out@) =~= column_views(before) + rows_in_slots(p, pn, k + 1));
    }
    proof {
        let found = page_rows(p, pn);
        lemma_tags_on_page(p, pn, pages::row_offsets(p).len() as int);
        assert(column_views(out@).len() == out@.len() && column_views(before).len()
            == before.len());
        assert forall|i: int| before.len() <= i < out@.len() implies (#[trigger] out@[i])@
            == found[i - before.len()] by {
            assert(column_views(out@)[i] == out@[i]@);
        }
        assert forall|i: int| before.len() <= i < out@.len() implies {
            let c = #[trigger] out@[i];
            c.page_number == pn && tag_at(plain@, c.tag_offset as int)
        } by {
            let c = found[i - before.len()];
            assert(out@[i]@ == c);
            assert(tag_at(p, c.tag_offset));
            assert(plain@.subrange(c.tag_offset, c.tag_offset + 8) =~= p.subrange(
                c.tag_offset,
                c.tag_offset + 8,
            ));
        }
        assert forall|i: int, j: int| before.len() <= i < j < out@.len() implies (
        #[trigger] out@[i]).tag_offset < (#[trigger] out@[j]).tag_offset by {
            assert(out@[i]@ == found[i - before.len()] && out@[j]@ == found[j - before.len()]);
        }
    }
}

/// The rows that page `pn` of the store holds: none unless it is a data page.
pub open spec fn stored_rows(
    pages: Seq<Seq<u8>>,
    calibration: Seq<Option<u8>>,
    pn: int,
) -> Seq<ColumnView> {
    if pages::page_kind(pages[pn][PAGE_TYPE_OFFSET as int]) == PageKind::Extent {
        page_rows(
            pages::page_plaintext(
                pages[pn],
                pn as u64,
                pages::calibrated(calibration, pn as u64),
            ),
            pn as u64,
        )
    } else {
        seq![]
    }
}

/// The rows of the pages from 1 up to, but not including, `end`.
pub open spec fn rows_before_page(
    pages: Seq<Seq<u8>>,
    calibration: Seq<Option<u8>>,
    end: int,
) -> Seq<ColumnView>
    decreases end,
{
    if end <= 1 {
        seq![]
    } else {
        rows_before_page(pages, calibration, end - 1) + stored_rows(pages, calibration, end - 1)
    }
}

/// All `SYSCOLUMN` rows of a store, page by page. Page 0 is the superblock and
/// holds none.
pub open spec fn all_rows(pages: Seq<Seq<u8>>, calibration: Seq<Option<u8>>) -> Seq<ColumnView> {
    rows_before_page(pages, calibration, pages.len() as int)
}

/// The tag of the row stands where the row says: on the page of that number, at that
/// offset of its plaintext.
pub open spec fn is_located(
    pages: Seq<Seq<u8>>,
    calibration: Seq<Option<u8>>,
    c: ColumnView,
) -> bool {
    &&& 1 <= c.page_number < pages.len()
    &&& tag_at(
        pages::page_plaintext(
            pages[c.page_number as int],
            c.page_number,
            pages::calibrated(calibration, c.page_number),
        ),
        c.tag_offset,
    )
}

/// Every `SYSCOLUMN` row recovered from `store`, in page order.
///
/// `calibration` holds, by page number, the calibration bytes that are known;
/// for the other pages they are worked out from the page.
pub fn iter_syscolumns(
    store: &PageStore,
    model: &ApModel,
    calibration: &[Option<u8>],
) -> (columns: Vec<SysColumn>)
    ensures
        column_views(columns@) == all_rows(pages::stored_pages(*store), calibration@),
        forall|i: int|
            0 <= i < columns@.len() ==> is_located(
                pages::stored_pages(*store),
                calibration@,
                (#[trigger] columns@[i])@,
            ),
{
    let mut columns: Vec<SysColumn> = Vec::new();
    let n_pages: u64 = page_count(store);
    let ghost pages = pages::stored_pages(*store);
    let mut pn: u64 = 1;
    assert(column_views(columns@) =~= rows_before_page(pages, calibration@, 1));
    while pn < n_pages
        invariant
            n_pages == pages.len(),
            pages == pages::stored_pages(*store),
            1 <= pn,
            pn <= n_pages || pn == 1,
            column_views(columns@) == rows_before_page(pages, calibration@, pn as int),
            forall|i: int|
                0 <= i < columns@.len() ==> is_located(
                    pages,
                    calibration@,
                    (#[trigger] columns@[i])@,
                ),
        decreases n_pages - pn,
    {
        let is_extent: bool = match kind_of_stored(store, pn) {
            Some(kind) => kind == PageKind::Extent,
            None => false,
        };
        if is_extent {
            if let Some(plain) = decode_page(store, model, calibration, pn) {
                let ghost before = columns@;
                assert(plain@.take(PAGE_SIZE as int) =~= plain@);
                scan_page(plain.as_slice(), pn, &mut columns);
                assert(column_views(columns@).len() == columns@.len() && column_views(before).len()
                    == before.len());
                assert forall|i: int| 0 <= i < columns@.len() implies is_located(
                    pages,
                    calibration@,
                    (#[trigger] columns@[i])@,
                ) by {
                    if i < before.len() {
                        assert(columns@[i] == columns@.take(before.len() as int)[i]);
                    }
                }
            }
        } else {
            assert(column_views(columns@) + Seq::<ColumnView>::empty() =~= column_views(columns@));
        }
        pn = pn + 1;
    }
    columns
}

/// In the order of unique rows, `a` comes before `b`: by owner, then by column
/// id, then by name.
pub open spec fn column_before(a: ColumnView, b: ColumnView) -> bool {
    a.owner_object_id < b.owner_object_id || (a.owner_object_id == b.owner_object_id && (a.column_id
        < b.column_id || (a.column_id == b.column_id && a.name != b.name && text::text_le(
        a.name,
        b.name,
    ))))
}

/// Two rows define the same column: same owner, column id and name.
pub open spec fn same_column(a: ColumnView, b: ColumnView) -> bool {
    a.owner_object_id == b.owner_object_id && a.column_id == b.column_id && a.name == b.name
}

/// `c` is the first of the rows that define its column.
pub open spec fn is_first_row(rows: Seq<ColumnView>, c: ColumnView) -> bool {
    exists|p: int|
        0 <= p < rows.len() && #[trigger] rows[p] == c && forall|q: int|
            0 <= q < p ==> !same_column(#[trigger] rows[q], c)
}

/// One of the rows defines the column that `c` defines.
pub open spec fn is_defined(rows: Seq<ColumnView>, c: ColumnView) -> bool {
    exists|i: int| 0 <= i < rows.len() && same_column(#[trigger] rows[i], c)
}

/// `unique` holds, in order, the first row of every column that `rows` defines.
pub open spec fn is_unique_of(rows: Seq<ColumnView>, unique: Seq<ColumnView>) -> bool {
    &&& forall|i: int, j: int|
        0 <= i < j < unique.len() ==> column_before(#[trigger] unique[i], #[trigger] unique[j])
    &&& forall|i: int| 0 <= i < unique.len() ==> #[trigger] is_first_row(rows, unique[i])
    &&& forall|p: int| 0 <= p < rows.len() ==> #[trigger] is_defined(unique, rows[p])
}

impl SysColumn {
    /// The same row once more.
    pub fn duplicate(&self) -> (copy: SysColumn)
        ensures
            copy == *self,
    {
        SysColumn {
            name: self.name.clone(),
            owner_object_id: self.owner_object_id,
            column_id: self.column_id,
            nulls_flag: self.nulls_flag,
            domain_char: self.domain_char,
            width: self.width,
            page_number: self.page_number,
            tag_offset: self.tag_offset,
        }
    }
}

/// Drops rows that define a column again, and puts the others in order.
pub fn unique_columns(columns: &[SysColumn]) -> (unique: Vec<SysColumn>)
    ensures
        is_unique_of(column_views(columns@), column_views(unique@)),
{
    let mut keys: Vec<(u32, u32, &str)> = Vec::new();
    for k in 0..columns.len()
        invariant
            keys@.len() == k,
            forall|i: int|
                0 <= i < k ==> (#[trigger] keys@[i])@ == (
                    columns@[i].owner_object_id,
                    columns@[i].column_id,
                    columns@[i].name@,
                ),
    {
        keys.push((columns[k].owner_object_id, columns[k].column_id, columns[k].name.as_str()));
    }
    let picked = distinct_order(&keys);
    let ghost kv = order::key_views(keys@);
    let mut unique: Vec<SysColumn> = Vec::new();
    for k in 0..picked.len()
        invariant
            kv.len() == columns@.len(),
            order::is_distinct_order::<(u32, u32, &str)>(kv, picked@),
            unique@.len() == k,
            forall|i: int| 0 <= i < k ==> #[trigger] unique@[i] == columns@[picked@[i] as int],
    {
        unique.push(columns[picked[k]].duplicate());
    }
    proof {
        let rows = column_views(columns@);
        let out = column_views(unique@);
        assert forall|p: int| 0 <= p < rows.len() implies (#[trigger] kv[p]) == (
            rows[p].owner_object_id,
            rows[p].column_id,
            rows[p].name,
        ) by {
            assert(keys@[p]@ == kv[p]);
        }
        assert forall|i: int| 0 <= i < out.len() implies #[trigger] out[i]
            == rows[picked@[i] as int] by {
            assert(out[i] == unique@[i]@);
        }
        assert forall|i: int, j: int| 0 <= i < j < out.len() implies column_before(
            #[trigger] out[i],
            #[trigger] out[j],
        ) by {
            let a = picked@[i] as int;
            let b = picked@[j] as int;
            assert(kv[a] != kv[b]);
        }
        assert forall|i: int| 0 <= i < out.len() implies #[trigger] is_first_row(rows, out[i]) by {
            let p = picked@[i] as int;
            assert(rows[p] == out[i]);
            assert(order::is_first::<(u32, u32, &str)>(kv, picked@[i] as int));
            assert forall|q: int| 0 <= q < p implies !same_column(#[trigger] rows[q], out[i]) by {
                assert(kv[q] != kv[p]);
            }
        }
        assert forall|p: int| 0 <= p < rows.len() implies #[trigger] is_defined(out, rows[p]) by {
            assert(order::is_listed::<(u32, u32, &str)>(kv, picked@, kv[p]));
            let i = choose|i: int|
                0 <= i < picked@.len() && kv[#[trigger] picked@[i] as int] == kv[p];
            assert(same_column(out[i], rows[p]));
        }
    }
    unique
}

/// The `SYSCOLUMN` rows of `store`, without rows that define a column again, in
/// order of owner and column id.
pub fn collect_unique(
    store: &PageStore,
    model: &ApModel,
    calibration: &[Option<u8>],
) -> (unique: Vec<SysColumn>)
    ensures
        is_unique_of(all_rows(pages::stored_pages(*store), calibration@), column_views(unique@)),
        forall|i: int|
            0 <= i < unique@.len() ==> is_located(
                pages::stored_pages(*store),
                calibration@,
                (#[trigger] unique@[i])@,
            ),
{
    let columns = iter_syscolumns(store, model, calibration);
    let unique = unique_columns(columns.as_slice());
    proof {
        let rows = column_views(columns@);
        assert forall|i: int| 0 <= i < unique@.len() implies is_located(
            pages::stored_pages(*store),
            calibration@,
            (#[trigger] unique@[i])@,
        ) by {
            assert(column_views(unique@)[i] == unique@[i]@);
            assert(is_first_row(rows, column_views(unique@)[i]));
            let p = choose|p: int| 0 <= p < rows.len() && #[trigger] rows[p] == unique@[i]@;
            assert(columns@[p]@ == rows[p]);
        }
    }
    unique
}

/// The first row of every column can be listed in order in only one way.
pub proof fn lemma_unique_of_unique(
    rows: Seq<ColumnView>,
    a: Seq<ColumnView>,
    b: Seq<ColumnView>,
)
    requires
        is_unique_of(rows, a),
        is_unique_of(rows, b),
    ensures
        a == b,
{
    lemma_unique_of_prefix(rows, a, b, a.len() as int);
    lemma_unique_of_prefix(rows, b, a, b.len() as int);
    assert(a =~= b);
}

proof fn lemma_column_before(a: ColumnView, b: ColumnView)
    requires
        column_before(a, b),
    ensures
        !column_before(b, a),
        !same_column(a, b),
{
    if column_before(b, a) {
        text::lemma_text_le_antisym(a.name, b.name);
    }
}

proof fn lemma_unique_of_prefix(
    rows: Seq<ColumnView>,
    a: Seq<ColumnView>,
    b: Seq<ColumnView>,
    n: int,
)
    requires
        is_unique_of(rows, a),
        is_unique_of(rows, b),
        0 <= n <= a.len(),
    ensures
        n <= b.len(),
        forall|k: int| 0 <= k < n ==> a[k] == b[k],
    decreases n,
{
    if n > 0 {
        let i = n - 1;
        lemma_unique_of_prefix(rows, a, b, i);
        assert(is_first_row(rows, a[i]));
        let p = choose|p: int|
            0 <= p < rows.len() && #[trigger] rows[p] == a[i] && forall|q: int|
                0 <= q < p ==> !same_column(#[trigger] rows[q], a[i]);
        assert(is_defined(b, rows[p]));
        let j = choose|j: int| 0 <= j < b.len() && same_column(#[trigger] b[j], a[i]);
        if j < i {
            assert(a[j] == b[j]);
            lemma_column_before(a[j], a[i]);
        }
        assert(is_first_row(rows, b[i]));
        let s = choose|s: int|
            0 <= s < rows.len() && #[trigger] rows[s] == b[i] && forall|q: int|
                0 <= q < s ==> !same_column(#[trigger] rows[q], b[i]);
        assert(is_defined(a, rows[s]));
        let t = choose|t: int| 0 <= t < a.len() && same_column(#[trigger] a[t], b[i]);
        if t < i {
            assert(a[t] == b[t]);
            lemma_column_before(b[t], b[i]);
        }
        if j > i {
            assert(column_before(b[i], b[j]));
            if t > i {
                assert(column_before(a[i], a[t]));
                lemma_column_before(a[i], b[i]);
            }
        }
        assert(same_column(a[i], b[i]));
        if p < s {
            assert(!same_column(rows[p], b[i]));
        }
        if s < p {
            assert(!same_column(rows[s], a[i]));
        }
    }
}

/// What is found at `at` or later: rows, each once, in the order of their tags, and
/// no row is missed.
proof fn lemma_rows_from(body: Seq<u8>, pn: u64, at: int)
    requires
        0 <= at,
    ensures
        forall|k: int|
            0 <= k < rows_from(body, pn, at).len() ==> is_row(
                body,
                (#[trigger] rows_from(body, pn, at)[k]).tag_offset,
            ) && rows_from(body, pn, at)[k].tag_offset >= at && rows_from(body, pn, at)[k]
                == row_view(body, pn, rows_from(body, pn, at)[k].tag_offset),
        forall|j: int, k: int|
            0 <= j < k < rows_from(body, pn, at).len() ==> (#[trigger] rows_from(
                body,
                pn,
                at,
            )[j]).tag_offset < (#[trigger] rows_from(body, pn, at)[k]).tag_offset,
        forall|i: int|
            at <= i && #[trigger] is_row(body, i) ==> rows_from(body, pn, at).contains(
                row_view(body, pn, i),
            ),
    decreases body.len() - at,
{
    if at < body.len() {
        lemma_rows_from(body, pn, at + 1);
        let rest = rows_from(body, pn, at + 1);
        let all = rows_from(body, pn, at);
        if is_row(body, at) {
            let first = row_view(body, pn, at);
            assert(all[0] == first);
            assert(forall|k: int| 0 < k < all.len() ==> #[trigger] all[k] == rest[k - 1]);
            assert forall|i: int| at <= i && #[trigger] is_row(body, i) implies all.contains(
                row_view(body, pn, i),
            ) by {
                if i > at {
                    let v = row_view(body, pn, i);
                    assert(rest.contains(v));
                    let k = choose|k: int| 0 <= k < rest.len() && rest[k] == v;
                    assert(all[k + 1] == v);
                }
            }
        }
    }
}

/// No row of a body is missed, whatever stands between the rows, and what is found
/// are rows, each once, in the order of their tags.
pub proof fn lemma_rows_complete(body: Seq<u8>, pn: u64)
    ensures
        forall|i: int| #[trigger]
            is_row(body, i) ==> rows_of(body, pn).contains(row_view(body, pn, i)),
        forall|k: int|
            0 <= k < rows_of(body, pn).len() ==> is_row(
                body,
                (#[trigger] rows_of(body, pn)[k]).tag_offset,
            ) && rows_of(body, pn)[k] == row_view(body, pn, rows_of(body, pn)[k].tag_offset),
        forall|j: int, k: int|
            0 <= j < k < rows_of(body, pn).len() ==> (#[trigger] rows_of(body, pn)[j]).tag_offset < (
            #[trigger] rows_of(body, pn)[k]).tag_offset,
{
    lemma_rows_from(body, pn, 0);
}

/// `peel` is one of the gaps between a name and the tag.
pub open spec fn is_gap(peel: int) -> bool {
    exists|k: int| 0 <= k < DEFAULT_PEELS@.len() && #[trigger] DEFAULT_PEELS@[k] == peel
}

/// Every name is an identifier of 3 to 40 characters that stands before the tag, with
/// one of the possible gaps between them.
pub proof fn lemma_name_is_identifier(body: Seq<u8>, tag: int)
    requires
        name_before(body, tag) is Some,
    ensures
        exists|peel: int, len: int| #[trigger]
            has_name(body, tag, peel, len) && NAME_LEN_MIN <= len <= NAME_LEN_MAX
                && is_gap(peel) && name_before(body, tag) == Some(
                text::ascii_chars(body.subrange(tag - peel - len, tag - peel)),
            ),
{
    lemma_name_from(body, tag, 0);
}

proof fn lemma_name_from(body: Seq<u8>, tag: int, n: int)
    requires
        0 <= n,
        name_from_attempt(body, tag, n) is Some,
    ensures
        exists|peel: int, len: int| #[trigger]
            has_name(body, tag, peel, len) && NAME_LEN_MIN <= len <= NAME_LEN_MAX
                && is_gap(peel) && name_from_attempt(body, tag, n) == Some(
                text::ascii_chars(body.subrange(tag - peel - len, tag - peel)),
            ),
    decreases ATTEMPTS - n,
{
    let peel = attempt_peel(n);
    let len = attempt_len(n);
    if has_name(body, tag, peel, len) {
        assert(DEFAULT_PEELS@[n / NAME_LENGTHS as int] == peel);
        assert(0 <= n / 38 < 7);
        assert(is_gap(peel));
    } else {
        lemma_name_from(body, tag, n + 1);
    }
}

/// The byte is a letter, a digit or an underscore.
pub open spec fn is_name_byte(b: u8) -> bool {
    ('a' as u8 <= b <= 'z' as u8) || ('A' as u8 <= b <= 'Z' as u8) || ('0' as u8 <= b <= '9' as u8)
        || b == '_' as u8
}

/// `len` bytes that can make up a name, the first of them no digit, end `gap` bytes
/// before `tag`, and the byte before them says how many they are.
pub open spec fn name_stands(body: Seq<u8>, tag: int, gap: int, len: int) -> bool {
    let at = tag - gap - len;
    &&& 1 <= at
    &&& body[at - 1] == len
    &&& forall|j: int| at <= j < at + len ==> is_name_byte(#[trigger] body[j])
    &&& !('0' as u8 <= body[at] <= '9' as u8)
}

/// The gaps and lengths that are looked at.
pub open spec fn is_looked_at(gap: int, len: int) -> bool {
    (gap == 0 || gap == 1 || gap == 2 || gap == 3 || gap == 4 || gap == 8 || gap == 16) && 3 <= len
        <= 40
}

/// `name` is the name of `len` bytes that ends `gap` bytes before `tag`, and no name
/// stands closer to the tag, nor one as close that is shorter.
pub open spec fn is_closest_name(
    body: Seq<u8>,
    tag: int,
    gap: int,
    len: int,
    name: Seq<char>,
) -> bool {
    &&& is_looked_at(gap, len)
    &&& name_stands(body, tag, gap, len)
    &&& name.len() == len
    &&& forall|j: int| 0 <= j < len ==> #[trigger] name[j] == body[tag - gap - len + j] as char
    &&& forall|g: int, l: int|
        is_looked_at(g, l) && #[trigger] name_stands(body, tag, g, l) ==> gap < g || (gap == g
            && len <= l)
}

proof fn lemma_has_name(body: Seq<u8>, tag: int, gap: int, len: int)
    requires
        0 <= tag <= body.len(),
        is_looked_at(gap, len),
    ensures
        has_name(body, tag, gap, len) == name_stands(body, tag, gap, len),
{
    let at = tag - gap - len;
    let s = body.subrange(at, tag - gap);
    if 1 <= at {
        if is_identifier(s) {
            assert forall|j: int| at <= j < at + len implies is_name_byte(#[trigger] body[j]) by {
                assert(s[j - at] == body[j]);
            }
            assert(s[0] == body[at]);
        }
        if name_stands(body, tag, gap, len) {
            assert forall|i: int| 0 <= i < s.len() implies is_letter(#[trigger] s[i]) || is_digit(
                s[i],
            ) || s[i] == 0x5F by {
                assert(is_name_byte(body[at + i]));
            }
            assert(s[0] == body[at]);
        }
    }
}

/// The attempt that looks at a gap and a length, and what attempts look at.
proof fn lemma_attempt(n: int)
    requires
        0 <= n < ATTEMPTS,
    ensures
        is_looked_at(attempt_peel(n), attempt_len(n)),
        n == 38 * (n / 38) + attempt_len(n) - 3,
        0 <= n / 38 < 7,
        attempt_peel(n) == DEFAULT_PEELS@[n / 38],
{
}

proof fn lemma_attempt_for(gap: int, len: int) -> (n: int)
    requires
        is_looked_at(gap, len),
    ensures
        0 <= n < ATTEMPTS,
        attempt_peel(n) == gap,
        attempt_len(n) == len,
{
    let k: int = if gap <= 4 {
        gap
    } else if gap == 8 {
        5
    } else {
        6
    };
    assert(DEFAULT_PEELS@[k] == gap);
    let n = 38 * k + len - 3;
    assert(n / 38 == k && n % 38 == len - 3) by (nonlinear_arith)
        requires
            n == 38 * k + len - 3,
            3 <= len <= 40,
    ;
    n
}

/// The first attempt from the `n`-th on that finds a name.
proof fn lemma_first_attempt(body: Seq<u8>, tag: int, n: int) -> (m: int)
    requires
        0 <= n <= ATTEMPTS,
    ensures
        n <= m <= ATTEMPTS,
        forall|k: int|
            n <= k < m ==> !has_name(body, tag, #[trigger] attempt_peel(k), attempt_len(k)),
        m == ATTEMPTS ==> name_from_attempt(body, tag, n) is None,
        m < ATTEMPTS ==> has_name(body, tag, attempt_peel(m), attempt_len(m)) && name_from_attempt(
            body,
            tag,
            n,
        ) == Some(
            text::ascii_chars(
                body.subrange(tag - attempt_peel(m) - attempt_len(m), tag - attempt_peel(m)),
            ),
        ),
    decreases ATTEMPTS - n,
{
    if n == ATTEMPTS || has_name(body, tag, attempt_peel(n), attempt_len(n)) {
        n
    } else {
        lemma_first_attempt(body, tag, n + 1)
    }
}

/// The name before a tag is the closest one, and there is none only where no name
/// stands before the tag.
pub proof fn lemma_closest_name(body: Seq<u8>, tag: int)
    requires
        0 <= tag <= body.len(),
    ensures
        match name_before(body, tag) {
            Some(name) => exists|gap: int, len: int| #[trigger]
                is_closest_name(body, tag, gap, len, name),
            None => forall|gap: int, len: int|
                is_looked_at(gap, len) ==> !#[trigger] name_stands(body, tag, gap, len),
        },
{
    let m = lemma_first_attempt(body, tag, 0);
    assert forall|g: int, l: int| is_looked_at(g, l) && #[trigger] name_stands(body, tag, g, l) implies m
        < ATTEMPTS && (attempt_peel(m) < g || (attempt_peel(m) == g && attempt_len(m) <= l)) by {
        let k = lemma_attempt_for(g, l);
        lemma_has_name(body, tag, g, l);
        assert(has_name(body, tag, attempt_peel(k), attempt_len(k)));
        assert(m <= k);
        lemma_attempt(m);
        lemma_attempt(k);
        assert(m / 38 <= k / 38);
    }
    if m < ATTEMPTS {
        let gap = attempt_peel(m);
        let len = attempt_len(m);
        lemma_attempt(m);
        lemma_has_name(body, tag, gap, len);
        let name = name_before(body, tag)->0;
        assert forall|j: int| 0 <= j < len implies #[trigger] name[j] == body[tag - gap - len + j] as char by {
            assert(body.subrange(tag - gap - len, tag - gap)[j] == body[tag - gap - len + j]);
        }
        assert(is_closest_name(body, tag, gap, len, name));
    }
}

/// The bytes of a row from its tag on: the fixed tag, a marker, and a letter for the
/// domain.
pub open spec fn row_stands(body: Seq<u8>, i: int) -> bool {
    &&& 0 <= i
    &&& i + 25 <= body.len()
    &&& body[i] == 0x01 && body[i + 1] == 0x52 && body[i + 2] == 0x00 && body[i + 3] == 0x01
    &&& body[i + 4] == 0x00 && body[i + 5] == 0x00 && body[i + 6] == 0x00 && body[i + 7] == 0x00
    &&& body[i + 22] == 0x01
    &&& ('a' as u8 <= body[i + 23] <= 'z' as u8) || ('A' as u8 <= body[i + 23] <= 'Z' as u8)
}

/// The numbers of a row whose tag stands at `i`, read byte by byte.
pub open spec fn holds_numbers(body: Seq<u8>, i: int, c: ColumnView) -> bool {
    &&& c.owner_object_id == body[i + 12] + 0x100 * body[i + 13] + 0x1_0000 * body[i + 14]
        + 0x100_0000 * body[i + 15]
    &&& c.column_id == body[i + 16] + 0x100 * body[i + 17] + 0x1_0000 * body[i + 18]
        + 0x100_0000 * body[i + 19]
    &&& c.nulls_flag == body[i + 20]
    &&& c.domain_char == body[i + 23]
    &&& c.width == body[i + 24]
}

proof fn lemma_row_stands(body: Seq<u8>, pn: u64, i: int)
    ensures
        is_row(body, i) == (row_stands(body, i) && name_before(body, i) is Some),
        is_row(body, i) ==> holds_numbers(body, i, row_view(body, pn, i)),
{
    let t = SYSCOLUMN_TAG@;
    if 0 <= i && i + 25 <= body.len() {
        let s = body.subrange(i, i + 8);
        assert(forall|j: int| 0 <= j < 8 ==> s[j] == body[i + j]);
        if s == t {
            assert(s[0] == t[0] && s[1] == t[1] && s[2] == t[2] && s[3] == t[3]);
            assert(s[4] == t[4] && s[5] == t[5] && s[6] == t[6] && s[7] == t[7]);
            assert(s[0] == body[i] && s[1] == body[i + 1] && s[2] == body[i + 2] && s[3] == body[i
                + 3]);
            assert(s[4] == body[i + 4] && s[5] == body[i + 5] && s[6] == body[i + 6] && s[7] == body[
            i + 7]);
        }
        if row_stands(body, i) {
            assert(s =~= t);
        }
    }
}

/// The rows found in a body are those that stand in it, whatever stands between them:
/// wherever the bytes of a row stand behind a name, the row is found, with the numbers
/// that the bytes say; and nothing else is found.
pub proof fn lemma_rows_are_what_stands(body: Seq<u8>, pn: u64)
    ensures
        forall|i: int| #[trigger]
            row_stands(body, i) && name_before(body, i) is Some ==> exists|k: int|
                0 <= k < rows_of(body, pn).len() && (#[trigger] rows_of(body, pn)[k]).tag_offset
                    == i,
        forall|k: int|
            0 <= k < rows_of(body, pn).len() ==> {
                let c = #[trigger] rows_of(body, pn)[k];
                &&& row_stands(body, c.tag_offset)
                &&& holds_numbers(body, c.tag_offset, c)
                &&& name_before(body, c.tag_offset) == Some(c.name)
                &&& c.page_number == pn
            },
{
    lemma_rows_from(body, pn, 0);
    let rows = rows_of(body, pn);
    assert forall|i: int| #[trigger] row_stands(body, i) && name_before(body, i) is Some implies exists|
        k: int,
    |
        0 <= k < rows.len() && (#[trigger] rows[k]).tag_offset == i by {
        lemma_row_stands(body, pn, i);
        assert(is_row(body, i));
        let k = choose|k: int| 0 <= k < rows.len() && rows[k] == row_view(body, pn, i);
        assert(rows[k].tag_offset == i);
    }
    assert forall|k: int| 0 <= k < rows.len() implies {
        let c = #[trigger] rows[k];
        &&& row_stands(body, c.tag_offset)
        &&& holds_numbers(body, c.tag_offset, c)
        &&& name_before(body, c.tag_offset) == Some(c.name)
        &&& c.page_number == pn
    } by {
        lemma_row_stands(body, pn, rows[k].tag_offset);
    }
}

/// A row that is written is read back: where a name of 3 to 40 characters, its length
/// before it, stands right before the bytes of a row, the row is found under that
/// name, with the numbers that were written.
pub proof fn lemma_written_row_is_read(body: Seq<u8>, pn: u64, i: int, len: int)
    requires
        row_stands(body, i),
        3 <= len <= 40,
        name_stands(body, i, 0, len),
    ensures
        exists|k: int|
            0 <= k < rows_of(body, pn).len() && {
                let c = #[trigger] rows_of(body, pn)[k];
                &&& c.tag_offset == i
                &&& c.name.len() == len
                &&& forall|j: int| 0 <= j < len ==> #[trigger] c.name[j] == body[i - len + j] as char
                &&& holds_numbers(body, i, c)
            },
{
    lemma_closest_name(body, i);
    lemma_rows_are_what_stands(body, pn);
    assert(is_looked_at(0, len));
    let k = choose|k: int|
        0 <= k < rows_of(body, pn).len() && (#[trigger] rows_of(body, pn)[k]).tag_offset == i;
    let c = rows_of(body, pn)[k];
    let (gap, l) = choose|gap: int, l: int| #[trigger] is_closest_name(body, i, gap, l, c.name);
    assert(gap == 0 && l <= len);
    if l < len {
        assert(is_name_byte(body[i - l - 1]));
    }
}

/// Every slot of a page is looked into: the rows found on a page are those found in
/// its slots, each with the offset of its slot added.
pub proof fn lemma_page_complete(plain: Seq<u8>, pn: u64)
    ensures
        forall|k: int, i: int|
            0 <= k < pages::row_offsets(plain).len() && #[trigger] is_row(
                pages::row_body(plain, pages::row_offsets(plain), k),
                i,
            ) ==> page_rows(plain, pn).contains(
                (ColumnView {
                    tag_offset: i + pages::row_offsets(plain)[k],
                    ..row_view(pages::row_body(plain, pages::row_offsets(plain), k), pn, i)
                }),
            ),
        forall|c: ColumnView| #[trigger]
            page_rows(plain, pn).contains(c) ==> is_in_slot(plain, pn, c),
{
    let offsets = pages::row_offsets(plain);
    let n = offsets.len() as int;
    assert forall|k: int, i: int|
        0 <= k < n && #[trigger] is_row(pages::row_body(plain, offsets, k), i) implies page_rows(
        plain,
        pn,
    ).contains(
        (ColumnView {
            tag_offset: i + offsets[k],
            ..row_view(pages::row_body(plain, offsets, k), pn, i)
        }),
    ) by {
        let body = pages::row_body(plain, offsets, k);
        lemma_rows_from(body, pn, 0);
        assert(rows_of(body, pn).contains(row_view(body, pn, i)));
        lemma_slot_rows_kept(plain, pn, k, n, row_view(body, pn, i));
    }
    assert forall|c: ColumnView| #[trigger] page_rows(plain, pn).contains(c) implies is_in_slot(
        plain,
        pn,
        c,
    ) by {
        lemma_rows_come_from_slots(plain, pn, n, c);
    }
}

/// The row stands in one of the slots of the page: the body of the slot holds it.
pub open spec fn is_in_slot(plain: Seq<u8>, pn: u64, c: ColumnView) -> bool {
    exists|k: int|
        0 <= k < pages::row_offsets(plain).len() && {
            let body = #[trigger] pages::row_body(plain, pages::row_offsets(plain), k);
            let i = c.tag_offset - pages::row_offsets(plain)[k];
            &&& row_stands(body, i)
            &&& holds_numbers(body, i, c)
            &&& name_before(body, i) == Some(c.name)
            &&& c.page_number == pn
        }
}

proof fn lemma_slot_rows_kept(plain: Seq<u8>, pn: u64, k: int, n: int, c: ColumnView)
    requires
        0 <= k < n,
        rows_of(pages::row_body(plain, pages::row_offsets(plain), k), pn).contains(c),
    ensures
        rows_in_slots(plain, pn, n).contains(
            (ColumnView { tag_offset: c.tag_offset + pages::row_offsets(plain)[k], ..c }),
        ),
    decreases n,
{
    let offsets = pages::row_offsets(plain);
    let wanted = ColumnView { tag_offset: c.tag_offset + offsets[k], ..c };
    let before = rows_in_slots(plain, pn, n - 1);
    let found = rows_of(pages::row_body(plain, offsets, n - 1), pn);
    let all = rows_in_slots(plain, pn, n);
    if k == n - 1 {
        let j = choose|j: int| 0 <= j < found.len() && found[j] == c;
        assert(all[before.len() + j] == wanted);
    } else {
        lemma_slot_rows_kept(plain, pn, k, n - 1, c);
        let j = choose|j: int| 0 <= j < before.len() && before[j] == wanted;
        assert(all[j] == wanted);
    }
}

proof fn lemma_rows_come_from_slots(plain: Seq<u8>, pn: u64, n: int, c: ColumnView)
    requires
        0 <= n <= pages::row_offsets(plain).len(),
        rows_in_slots(plain, pn, n).contains(c),
    ensures
        is_in_slot(plain, pn, c),
    decreases n,
{
    if n > 0 {
        let offsets = pages::row_offsets(plain);
        let before = rows_in_slots(plain, pn, n - 1);
        let body = pages::row_body(plain, offsets, n - 1);
        let found = rows_of(body, pn);
        let all = rows_in_slots(plain, pn, n);
        let j = choose|j: int| 0 <= j < all.len() && all[j] == c;
        if j < before.len() {
            assert(before[j] == c);
            lemma_rows_come_from_slots(plain, pn, n - 1, c);
        } else {
            lemma_rows_are_what_stands(body, pn);
            let d = found[j - before.len()];
            assert(c == moved(d, offsets[n - 1] as int));
            assert(row_stands(body, d.tag_offset));
        }
    }
}

/// Every data page of a store is scanned: what stands in a slot of a page of type `E`,
/// from page 1 on, is found, and what is found is on such a page. The rows come by
/// page.
pub proof fn lemma_store_complete(pages: Seq<Seq<u8>>, calibration: Seq<Option<u8>>)
    requires
        pages.len() <= u64::MAX,
    ensures
        forall|pn: u64, k: int, i: int|
            #![trigger is_row(slot_body(pages, calibration, pn, k), i)]
            1 <= pn < pages.len() && is_data_page(pages[pn as int]) && 0 <= k < pages::row_offsets(
                plain_page(pages, calibration, pn),
            ).len() && is_row(slot_body(pages, calibration, pn, k), i) ==> all_rows(
                pages,
                calibration,
            ).contains(
                (ColumnView {
                    tag_offset: i + pages::row_offsets(plain_page(pages, calibration, pn))[k],
                    ..row_view(slot_body(pages, calibration, pn, k), pn, i)
                }),
            ),
        forall|c: ColumnView| #[trigger]
            all_rows(pages, calibration).contains(c) ==> 1 <= c.page_number < pages.len()
                && is_data_page(pages[c.page_number as int]) && is_in_slot(
                plain_page(pages, calibration, c.page_number),
                c.page_number,
                c,
            ),
        forall|i: int, j: int|
            0 <= i < j < all_rows(pages, calibration).len() ==> (#[trigger] all_rows(
                pages,
                calibration,
            )[i]).page_number <= (#[trigger] all_rows(pages, calibration)[j]).page_number,
{
    let n = pages.len() as int;
    assert forall|pn: u64, k: int, i: int|
        #![trigger is_row(slot_body(pages, calibration, pn, k), i)]
        1 <= pn < pages.len() && is_data_page(pages[pn as int]) && 0 <= k < pages::row_offsets(
            plain_page(pages, calibration, pn),
        ).len() && is_row(slot_body(pages, calibration, pn, k), i) implies all_rows(
        pages,
        calibration,
    ).contains(
        (ColumnView {
            tag_offset: i + pages::row_offsets(plain_page(pages, calibration, pn))[k],
            ..row_view(slot_body(pages, calibration, pn, k), pn, i)
        }),
    ) by {
        let plain = plain_page(pages, calibration, pn);
        lemma_page_complete(plain, pn);
        lemma_page_rows_kept(
            pages,
            calibration,
            pn as int,
            n,
            ColumnView {
                tag_offset: i + pages::row_offsets(plain)[k],
                ..row_view(pages::row_body(plain, pages::row_offsets(plain), k), pn, i)
            },
        );
    }
    lemma_rows_come_from_pages(pages, calibration, n);
}

/// The page is a data page: its type byte is the letter `E`, in either case.
pub open spec fn is_data_page(raw: Seq<u8>) -> bool {
    raw[0xFF2] == 'E' as u8 || raw[0xFF2] == 'e' as u8
}

/// The plaintext of page `pn`.
pub open spec fn plain_page(
    pages: Seq<Seq<u8>>,
    calibration: Seq<Option<u8>>,
    pn: u64,
) -> Seq<u8> {
    pages::page_plaintext(pages[pn as int], pn, pages::calibrated(calibration, pn))
}

/// What stands in the `k`-th slot of page `pn`.
pub open spec fn slot_body(
    pages: Seq<Seq<u8>>,
    calibration: Seq<Option<u8>>,
    pn: u64,
    k: int,
) -> Seq<u8> {
    pages::row_body(
        plain_page(pages, calibration, pn),
        pages::row_offsets(plain_page(pages, calibration, pn)),
        k,
    )
}

proof fn lemma_page_rows_kept(
    pages: Seq<Seq<u8>>,
    calibration: Seq<Option<u8>>,
    pn: int,
    end: int,
    c: ColumnView,
)
    requires
        1 <= pn < end <= pages.len() <= u64::MAX,
        is_data_page(pages[pn]),
        page_rows(plain_page(pages, calibration, pn as u64), pn as u64).contains(c),
    ensures
        rows_before_page(pages, calibration, end).contains(c),
    decreases end,
{
    let before = rows_before_page(pages, calibration, end - 1);
    let found = stored_rows(pages, calibration, end - 1);
    let all = rows_before_page(pages, calibration, end);
    if pn == end - 1 {
        assert(found == page_rows(plain_page(pages, calibration, pn as u64), pn as u64));
        let j = choose|j: int| 0 <= j < found.len() && found[j] == c;
        assert(all[before.len() + j] == c);
    } else {
        lemma_page_rows_kept(pages, calibration, pn, end - 1, c);
        let j = choose|j: int| 0 <= j < before.len() && before[j] == c;
        assert(all[j] == c);
    }
}

proof fn lemma_rows_come_from_pages(
    pages: Seq<Seq<u8>>,
    calibration: Seq<Option<u8>>,
    end: int,
)
    requires
        0 <= end <= pages.len() <= u64::MAX,
    ensures
        forall|c: ColumnView| #[trigger]
            rows_before_page(pages, calibration, end).contains(c) ==> 1 <= c.page_number < end
                && is_data_page(pages[c.page_number as int]) && is_in_slot(
                plain_page(pages, calibration, c.page_number),
                c.page_number,
                c,
            ),
        forall|i: int, j: int|
            0 <= i < j < rows_before_page(pages, calibration, end).len() ==> (
            #[trigger] rows_before_page(pages, calibration, end)[i]).page_number <= (
            #[trigger] rows_before_page(pages, calibration, end)[j]).page_number,
    decreases end,
{
    if end > 1 {
        let before = rows_before_page(pages, calibration, end - 1);
        let found = stored_rows(pages, calibration, end - 1);
        let all = rows_before_page(pages, calibration, end);
        let pn = (end - 1) as u64;
        lemma_rows_come_from_pages(pages, calibration, end - 1);
        lemma_page_complete(plain_page(pages, calibration, pn), pn);
        assert forall|c: ColumnView| #[trigger] found.contains(c) implies c.page_number == pn
            && is_data_page(pages[pn as int]) && is_in_slot(
            plain_page(pages, calibration, pn),
            pn,
            c,
        ) by {
        }
        assert forall|c: ColumnView| #[trigger] all.contains(c) implies before.contains(c)
            || found.contains(c) by {
            let j = choose|j: int| 0 <= j < all.len() && all[j] == c;
            if j < before.len() {
                assert(before[j] == c);
            } else {
                assert(found[j - before.len()] == c);
            }
        }
        assert forall|i: int, j: int| 0 <= i < j < all.len() implies (#[trigger] all[i]).page_number
            <= (#[trigger] all[j]).page_number by {
            if i < before.len() {
                assert(before.contains(before[i]));
                assert(all[i] == before[i]);
            } else {
                assert(found.contains(found[i - before.len()]));
            }
            if j < before.len() {
                assert(all[j] == before[j]);
            } else {
                assert(found.contains(found[j - before.len()]));
            }
        }
    }
}

/// One of the rows has the owner, the column id and the name.
pub open spec fn has_column(
    rows: Seq<ColumnView>,
    owner: u32,
    column_id: u32,
    name: Seq<char>,
) -> bool {
    exists|i: int|
        0 <= i < rows.len() && (#[trigger] rows[i]).owner_object_id == owner && rows[i].column_id
            == column_id && rows[i].name == name
}

/// The unique columns of rows: every triple of owner, column id and name that a row has
/// is there once, as its first row has it, by owner, then by column id, then by name.
pub proof fn lemma_unique_columns(rows: Seq<ColumnView>, unique: Seq<ColumnView>)
    requires
        is_unique_of(rows, unique),
    ensures
        forall|p: int|
            0 <= p < rows.len() ==> has_column(
                unique,
                (#[trigger] rows[p]).owner_object_id,
                rows[p].column_id,
                rows[p].name,
            ),
        forall|i: int, q: int|
            0 <= i < unique.len() && 0 <= q < rows.len() && (#[trigger] rows[q]).owner_object_id == (
            #[trigger] unique[i]).owner_object_id && rows[q].column_id == unique[i].column_id
                && rows[q].name == unique[i].name ==> exists|p: int|
                0 <= p <= q && #[trigger] rows[p] == unique[i],
        forall|i: int| 0 <= i < unique.len() ==> rows.contains(#[trigger] unique[i]),
        forall|i: int, j: int|
            0 <= i < j < unique.len() ==> {
                let a = #[trigger] unique[i];
                let b = #[trigger] unique[j];
                ||| a.owner_object_id < b.owner_object_id
                ||| a.owner_object_id == b.owner_object_id && a.column_id < b.column_id
                ||| a.owner_object_id == b.owner_object_id && a.column_id == b.column_id && a.name
                    != b.name && text::text_le(a.name, b.name)
            },
{
    assert forall|p: int| 0 <= p < rows.len() implies has_column(
        unique,
        (#[trigger] rows[p]).owner_object_id,
        rows[p].column_id,
        rows[p].name,
    ) by {
        assert(is_defined(unique, rows[p]));
        let i = choose|i: int| 0 <= i < unique.len() && same_column(#[trigger] unique[i], rows[p]);
        assert(unique[i].name == rows[p].name);
    }
    assert forall|i: int| 0 <= i < unique.len() implies rows.contains(#[trigger] unique[i]) by {
        assert(is_first_row(rows, unique[i]));
    }
    assert forall|i: int, q: int|
        0 <= i < unique.len() && 0 <= q < rows.len() && (#[trigger] rows[q]).owner_object_id == (
        #[trigger] unique[i]).owner_object_id && rows[q].column_id == unique[i].column_id
            && rows[q].name == unique[i].name implies exists|p: int|
        0 <= p <= q && #[trigger] rows[p] == unique[i] by {
        assert(is_first_row(rows, unique[i]));
        let p = choose|p: int|
            0 <= p < rows.len() && #[trigger] rows[p] == unique[i] && forall|r: int|
                0 <= r < p ==> !same_column(#[trigger] rows[r], unique[i]);
        assert(same_column(rows[q], unique[i]));
        assert(p <= q);
    }
}

} // verus!
