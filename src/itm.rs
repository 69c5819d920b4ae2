//! The ITM item catalog: a count and fixed-size item records, and the
//! linker that names items from a decoded string table.
use vstd::prelude::*;
use crate::cursor::{Eof, eof_at, eof_cut, u16_le, u32_le, read_u8, read_u16, read_u32, skip};
use crate::gmd::{GmdDocument, GmdEntryView, entries_view};

verus! {

/// Size of the catalog header: six unread bytes and the item count.
pub const ITEM_HEADER_SIZE: usize = 10;

/// Where an item is kept.
#[derive(Debug, Clone, Copy, PartialEq, Eq, Structural)]
pub enum ItemContainerType {
    Item,
    Material,
    AccountItem,
    AmmoCoating,
    Decoration,
    Furniture,
}

/// The kind of an item within its container.
#[derive(Debug, Clone, Copy, PartialEq, Eq, Structural)]
pub enum ItemSubType {
    NoSubType,
    Ammo,
    EndemicLife,
    Unknown3,
    Coating,
    Unknown5,
}

/// The container type that a raw value stands for; values above 5 have none.
pub open spec fn container_type_of(v: u16) -> Option<ItemContainerType> {
    if v == 0 {
        Some(ItemContainerType::Item)
    } else if v == 1 {
        Some(ItemContainerType::Material)
    } else if v == 2 {
        Some(ItemContainerType::AccountItem)
    } else if v == 3 {
        Some(ItemContainerType::AmmoCoating)
    } else if v == 4 {
        Some(ItemContainerType::Decoration)
    } else if v == 5 {
        Some(ItemContainerType::Furniture)
    } else {
        None
    }
}

/// The subtype that a raw value stands for; values above 5 have none.
pub open spec fn subtype_of(v: u8) -> Option<ItemSubType> {
    if v == 0 {
        Some(ItemSubType::NoSubType)
    } else if v == 1 {
        Some(ItemSubType::Ammo)
    } else if v == 2 {
        Some(ItemSubType::EndemicLife)
    } else if v == 3 {
        Some(ItemSubType::Unknown3)
    } else if v == 4 {
        Some(ItemSubType::Coating)
    } else if v == 5 {
        Some(ItemSubType::Unknown5)
    } else {
        None
    }
}

impl ItemContainerType {
    /// Decodes a raw container type.
    pub fn from_raw(v: u16) -> (r: Option<ItemContainerType>)
        ensures
            r == container_type_of(v),
    {
        match v {
            0 => Some(ItemContainerType::Item),
            1 => Some(ItemContainerType::Material),
            2 => Some(ItemContainerType::AccountItem),
            3 => Some(ItemContainerType::AmmoCoating),
            4 => Some(ItemContainerType::Decoration),
            5 => Some(ItemContainerType::Furniture),
            _ => None,
        }
    }
}

impl ItemSubType {
    /// Decodes a raw subtype.
    pub fn from_raw(v: u8) -> (r: Option<ItemSubType>)
        ensures
            r == subtype_of(v),
    {
        match v {
            0 => Some(ItemSubType::NoSubType),
            1 => Some(ItemSubType::Ammo),
            2 => Some(ItemSubType::EndemicLife),
            3 => Some(ItemSubType::Unknown3),
            4 => Some(ItemSubType::Coating),
            5 => Some(ItemSubType::Unknown5),
            _ => None,
        }
    }
}

/// Why an item catalog could not be decoded.
#[derive(Debug, Clone, Copy, PartialEq, Eq)]
pub enum ItmError {
    UnexpectedEof { needed: usize, available: usize },
    UnsupportedEnumValue { field: &'static str, raw: u32 },
}

pub open spec fn itm_eof(e: Eof) -> ItmError {
    ItmError::UnexpectedEof { needed: e.needed, available: e.available }
}

/// `e` is a running-out failure in a buffer of `n` bytes, as `eof_cut`
/// describes, of a read that would have ended by `end`.
pub open spec fn itm_cut(e: ItmError, n: int, end: int) -> bool {
    match e {
        ItmError::UnexpectedEof { needed, available } => eof_cut(
            Eof { needed, available },
            n,
            end,
        ),
        _ => false,
    }
}

fn eof_error(e: Eof) -> (r: ItmError)
    ensures
        r == itm_eof(e),
{
    ItmError::UnexpectedEof { needed: e.needed, available: e.available }
}

/// One item record; `name` is filled in only by linking.
#[derive(Debug)]
pub struct ItmEntry {
    pub id: u32,
    pub subtype: ItemSubType,
    pub container_type: ItemContainerType,
    pub rarity: u8,
    pub carry_limit: u8,
    pub sort_order: u16,
    pub sell_price: u32,
    pub buy_price: u32,
    pub name: Option<String>,
}

/// An item record with its name as a character sequence.
pub struct ItmEntryView {
    pub id: u32,
    pub subtype: ItemSubType,
    pub container_type: ItemContainerType,
    pub rarity: u8,
    pub carry_limit: u8,
    pub sort_order: u16,
    pub sell_price: u32,
    pub buy_price: u32,
    pub name: Option<Seq<char>>,
}

impl View for ItmEntry {
    type V = ItmEntryView;

    open spec fn view(&self) -> ItmEntryView {
        ItmEntryView {
            id: self.id,
            subtype: self.subtype,
            container_type: self.container_type,
            rarity: self.rarity,
            carry_limit: self.carry_limit,
            sort_order: self.sort_order,
            sell_price: self.sell_price,
            buy_price: self.buy_price,
            name: match self.name {
                Some(n) => Some(n@),
                None => None,
            },
        }
    }
}

/// The views of a sequence of item records.
pub open spec fn items_view(v: Seq<ItmEntry>) -> Seq<ItmEntryView> {
    v.map_values(|e: ItmEntry| e@)
}

/// A decoded item catalog, its records in stored order.
#[derive(Debug)]
pub struct ItmDocument {
    pub entries: Vec<ItmEntry>,
}

/// The item record at `q`: its fields in order, each read only after the
/// ones before it were read and checked.
pub open spec fn record_spec(b: Seq<u8>, q: int) -> Result<ItmEntryView, ItmError> {
    if q + 4 > b.len() {
        Err(itm_eof(eof_at(b, q, 4)))
    } else if q + 5 > b.len() {
        Err(itm_eof(eof_at(b, q + 4, 1)))
    } else if q + 6 > b.len() {
        Err(itm_eof(eof_at(b, q + 5, 1)))
    } else if subtype_of(b[q + 5]) is None {
        Err(ItmError::UnsupportedEnumValue { field: "subtype", raw: b[q + 5] as u32 })
    } else if q + 8 > b.len() {
        Err(itm_eof(eof_at(b, q + 6, 2)))
    } else if container_type_of(u16_le(b, q + 6)) is None {
        Err(
            ItmError::UnsupportedEnumValue {
                field: "container_type",
                raw: u16_le(b, q + 6) as u32,
            },
        )
    } else if q + 9 > b.len() {
        Err(itm_eof(eof_at(b, q + 8, 1)))
    } else if q + 10 > b.len() {
        Err(itm_eof(eof_at(b, q + 9, 1)))
    } else if q + 11 > b.len() {
        Err(itm_eof(eof_at(b, q + 10, 1)))
    } else if q + 12 > b.len() {
        Err(itm_eof(eof_at(b, q + 11, 1)))
    } else if q + 14 > b.len() {
        Err(itm_eof(eof_at(b, q + 12, 2)))
    } else if q + 24 > b.len() {
        Err(itm_eof(eof_at(b, q + 14, 10)))
    } else if q + 28 > b.len() {
        Err(itm_eof(eof_at(b, q + 24, 4)))
    } else if q + 32 > b.len() {
        Err(itm_eof(eof_at(b, q + 28, 4)))
    } else {
        Ok(
            ItmEntryView {
                id: u32_le(b, q),
                subtype: subtype_of(b[q + 5])->Some_0,
                container_type: container_type_of(u16_le(b, q + 6))->Some_0,
                rarity: b[q + 9],
                carry_limit: b[q + 10],
                sort_order: u16_le(b, q + 12),
                sell_price: u32_le(b, q + 24),
                buy_price: u32_le(b, q + 28),
                name: None,
            },
        )
    }
}

/// The first `n` item records from `p` on, one every 32 bytes.
pub open spec fn records_spec(b: Seq<u8>, p: int, n: nat) -> Result<Seq<ItmEntryView>, ItmError>
    decreases n,
{
    if n == 0 {
        Ok(Seq::empty())
    } else {
        match records_spec(b, p, (n - 1) as nat) {
            Err(e) => Err(e),
            Ok(s) => match record_spec(b, p + 32 * (n - 1)) {
                Err(e) => Err(e),
                Ok(r) => Ok(s.push(r)),
            },
        }
    }
}

/// The catalog at the start of `b`: its records and the position after them.
pub open spec fn document_spec(b: Seq<u8>) -> Result<(Seq<ItmEntryView>, int), ItmError> {
    if b.len() < 6 {
        Err(itm_eof(eof_at(b, 0, 6)))
    } else if b.len() < 10 {
        Err(itm_eof(eof_at(b, 6, 4)))
    } else {
        match records_spec(b, 10, u32_le(b, 6) as nat) {
            Err(e) => Err(e),
            Ok(s) => Ok((s, 10 + 32 * u32_le(b, 6))),
        }
    }
}

/// The records of the catalog that `b` holds.
pub open spec fn itm_spec(b: Seq<u8>) -> Result<Seq<ItmEntryView>, ItmError> {
    match document_spec(b) {
        Err(e) => Err(e),
        Ok((s, _)) => Ok(s),
    }
}

/// Decodes the item record at `pos`; returns the position after it with the
/// record, which has no name yet.
pub fn parse_entry(input: &[u8], pos: usize) -> (r: Result<(usize, ItmEntry), ItmError>)
    requires
        pos <= input@.len(),
    ensures
        r is Ok ==> record_spec(input@, pos as int) == Ok::<ItmEntryView, ItmError>(r->Ok_0.1@)
            && r->Ok_0.0 == pos + 32,
        r is Err ==> record_spec(input@, pos as int) == Err::<ItmEntryView, ItmError>(r->Err_0),
{
    // Every position below stays within the buffer's length, which is a `usize`.
    let _len = input.len();
    let id = match read_u32(input, pos) {
        Ok(v) => v,
        Err(e) => return Err(eof_error(e)),
    };
    let p = match skip(input, pos + 4, 1) {
        Ok(q) => q,
        Err(e) => return Err(eof_error(e)),
    };
    let raw_subtype = match read_u8(input, p) {
        Ok(v) => v,
        Err(e) => return Err(eof_error(e)),
    };
    let subtype = match ItemSubType::from_raw(raw_subtype) {
        Some(v) => v,
        None => return Err(ItmError::UnsupportedEnumValue { field: "subtype", raw: raw_subtype as u32 }),
    };
    let raw_container = match read_u16(input, pos + 6) {
        Ok(v) => v,
        Err(e) => return Err(eof_error(e)),
    };
    let container_type = match ItemContainerType::from_raw(raw_container) {
        Some(v) => v,
        None => return Err(
            ItmError::UnsupportedEnumValue { field: "container_type", raw: raw_container as u32 },
        ),
    };
    let p = match skip(input, pos + 8, 1) {
        Ok(q) => q,
        Err(e) => return Err(eof_error(e)),
    };
    let rarity = match read_u8(input, p) {
        Ok(v) => v,
        Err(e) => return Err(eof_error(e)),
    };
    let carry_limit = match read_u8(input, pos + 10) {
        Ok(v) => v,
        Err(e) => return Err(eof_error(e)),
    };
    // The byte after the carry limit repeats it and is not kept.
    let p = match skip(input, pos + 11, 1) {
        Ok(q) => q,
        Err(e) => return Err(eof_error(e)),
    };
    let sort_order = match read_u16(input, p) {
        Ok(v) => v,
        Err(e) => return Err(eof_error(e)),
    };
    let p = match skip(input, pos + 14, 10) {
        Ok(q) => q,
        Err(e) => return Err(eof_error(e)),
    };
    let sell_price = match read_u32(input, p) {
        Ok(v) => v,
        Err(e) => return Err(eof_error(e)),
    };
    let buy_price = match read_u32(input, pos + 28) {
        Ok(v) => v,
        Err(e) => return Err(eof_error(e)),
    };
    Ok(
        (
            pos + 32,
            ItmEntry {
                id,
                subtype,
                container_type,
                rarity,
                carry_limit,
                sort_order,
                sell_price,
                buy_price,
                name: None,
            },
        ),
    )
}

proof fn lemma_records_err_stays(b: Seq<u8>, p: int, i: nat, n: nat)
    requires
        i <= n,
        records_spec(b, p, i) is Err,
    ensures
        records_spec(b, p, n) == records_spec(b, p, i),
    decreases n - i,
{
    if i < n {
        lemma_records_err_stays(b, p, (i + 1) as nat, n);
    }
}

proof fn lemma_records_len(b: Seq<u8>, p: int, n: nat)
    requires
        records_spec(b, p, n) is Ok,
    ensures
        records_spec(b, p, n)->Ok_0.len() == n,
        n > 0 ==> p + 32 * n <= b.len(),
    decreases n,
{
    if n > 0 {
        lemma_records_len(b, p, (n - 1) as nat);
    }
}

/// A record read from a prefix of `b` that holds all of it is the record
/// read from `b`; one read from a prefix that cuts it short runs out.
proof fn lemma_record_prefix(b: Seq<u8>, q: int, n: int)
    requires
        0 <= q <= n <= b.len(),
        b.len() <= usize::MAX,
        record_spec(b, q) is Ok,
    ensures
        q + 32 <= n ==> record_spec(b.take(n), q) == record_spec(b, q),
        n < q + 32 ==> record_spec(b.take(n), q) is Err && itm_cut(
            record_spec(b.take(n), q)->Err_0,
            n,
            q + 32,
        ),
{
    let c = b.take(n);
    assert forall|i: int| 0 <= i < n implies c[i] == b[i] by {}
    if q + 8 <= n {
        assert(u16_le(c, q + 6) == u16_le(b, q + 6));
    }
    if q + 32 <= n {
        assert(u32_le(c, q) == u32_le(b, q));
        assert(u16_le(c, q + 12) == u16_le(b, q + 12));
        assert(u32_le(c, q + 24) == u32_le(b, q + 24));
        assert(u32_le(c, q + 28) == u32_le(b, q + 28));
    }
}

proof fn lemma_records_prefix(b: Seq<u8>, p: int, k: nat, n: int)
    requires
        0 <= p <= n <= b.len(),
        b.len() <= usize::MAX,
        records_spec(b, p, k) is Ok,
    ensures
        p + 32 * k <= n ==> records_spec(b.take(n), p, k) == records_spec(b, p, k),
        n < p + 32 * k ==> records_spec(b.take(n), p, k) is Err && itm_cut(
            records_spec(b.take(n), p, k)->Err_0,
            n,
            p + 32 * k,
        ),
    decreases k,
{
    if k > 0 {
        let q = p + 32 * (k - 1);
        lemma_records_prefix(b, p, (k - 1) as nat, n);
        if q <= n {
            lemma_records_len(b, p, k);
            lemma_record_prefix(b, q, n);
        }
    }
}

/// Decoding any buffer cut short of the end of a catalog's last record
/// fails with `UnexpectedEof`, at a read that starts within the cut buffer
/// and would have ended within the catalog: `available` counts the bytes
/// left where that read starts, and `needed` is more than that.
pub proof fn lemma_truncated_catalog(b: Seq<u8>, n: int)
    requires
        b.len() <= usize::MAX,
        document_spec(b) is Ok,
        0 <= n < document_spec(b)->Ok_0.1,
    ensures
        document_spec(b.take(n)) is Err,
        itm_cut(document_spec(b.take(n))->Err_0, n, document_spec(b)->Ok_0.1),
{
    let count = u32_le(b, 6);
    lemma_records_len(b, 10, count as nat);
    if n >= 10 {
        let c = b.take(n);
        assert(u32_le(c, 6) == u32_le(b, 6));
        lemma_records_prefix(b, 10, count as nat, n);
    }
}

/// Decodes an item catalog; returns the position after it with the catalog.
pub fn parse_document(input: &[u8]) -> (r: Result<(usize, ItmDocument), ItmError>)
    ensures
        r is Ok ==> document_spec(input@) == Ok::<(Seq<ItmEntryView>, int), ItmError>(
            (items_view(r->Ok_0.1.entries@), r->Ok_0.0 as int),
        ),
        r is Err ==> document_spec(input@) == Err::<(Seq<ItmEntryView>, int), ItmError>(
            r->Err_0,
        ),
{
    let len = input.len();
    let p = match skip(input, 0, 6) {
        Ok(q) => q,
        Err(e) => return Err(eof_error(e)),
    };
    let item_count = match read_u32(input, p) {
        Ok(v) => v,
        Err(e) => return Err(eof_error(e)),
    };
    let mut entries: Vec<ItmEntry> = Vec::new();
    let mut q: usize = ITEM_HEADER_SIZE;
    let mut i: u32 = 0;
    assert(items_view(entries@) =~= Seq::<ItmEntryView>::empty());
    while i < item_count
        invariant
            i <= item_count,
            len == input@.len(),
            10 <= input@.len(),
            item_count == u32_le(input@, 6),
            q <= input@.len(),
            q == 10 + 32 * i,
            records_spec(input@, 10, i as nat) == Ok::<Seq<ItmEntryView>, ItmError>(
                items_view(entries@),
            ),
        decreases item_count - i,
    {
        match parse_entry(input, q) {
            Ok((r, e)) => {
                proof {
                    assert(items_view(entries@.push(e)) =~= items_view(entries@).push(e@));
                }
                entries.push(e);
                q = r;
            },
            Err(e) => {
                proof {
                    lemma_records_err_stays(input@, 10, (i + 1) as nat, item_count as nat);
                }
                return Err(e);
            },
        }
        i = i + 1;
    }
    Ok((q, ItmDocument { entries }))
}

/// Decodes the item catalog that `input` holds.
pub fn parse(input: &[u8]) -> (r: Result<ItmDocument, ItmError>)
    ensures
        r is Ok ==> itm_spec(input@) == Ok::<Seq<ItmEntryView>, ItmError>(
            items_view(r->Ok_0.entries@),
        ),
        r is Err ==> itm_spec(input@) == Err::<Seq<ItmEntryView>, ItmError>(r->Err_0),
{
    match parse_document(input) {
        Ok((_, document)) => Ok(document),
        Err(e) => Err(e),
    }
}

/// A decoded catalog has as many records as its header counts, and the
/// catalog spans its 10-byte header and 32 bytes per record.
pub proof fn lemma_item_counts(b: Seq<u8>)
    requires
        document_spec(b) is Ok,
    ensures
        document_spec(b)->Ok_0.0.len() == u32_le(b, 6),
        document_spec(b)->Ok_0.1 == 10 + 32 * document_spec(b)->Ok_0.0.len(),
{
    lemma_records_len(b, 10, u32_le(b, 6) as nat);
}

/// How an import of names went.
#[derive(Debug, Clone, Copy, PartialEq, Eq, Structural)]
pub enum ItmImportResult {
    Success,
    PartialSuccess(usize),
    NoEntriesImported,
}

/// Position, in a string table, of the name of the item with id `id`, when
/// names stand every `stride` entries from entry `offset` on.
pub open spec fn name_index(id: u32, stride: u32, offset: u32) -> int {
    id * stride + offset
}

/// An item after linking against the entries `g`: the value at its name
/// position becomes its name; past the end of `g` the item is unchanged.
pub open spec fn linked(e: ItmEntryView, g: Seq<GmdEntryView>, stride: u32, offset: u32) -> ItmEntryView {
    let t = name_index(e.id, stride, offset);
    if t < g.len() {
        ItmEntryView { name: Some(g[t].value), ..e }
    } else {
        e
    }
}

/// The number of items in `s` whose name position lies within `g`.
pub open spec fn count_named(s: Seq<ItmEntryView>, g: Seq<GmdEntryView>, stride: u32, offset: u32) -> nat
    decreases s.len(),
{
    if s.len() == 0 {
        0
    } else {
        count_named(s.drop_last(), g, stride, offset) + if name_index(s.last().id, stride, offset)
            < g.len() {
            1nat
        } else {
            0nat
        }
    }
}

/// The summary of an import that named `named` of `total` items.
pub open spec fn import_result(named: nat, total: nat) -> ItmImportResult {
    if named == 0 {
        ItmImportResult::NoEntriesImported
    } else if named < total {
        ItmImportResult::PartialSuccess(named as usize)
    } else {
        ItmImportResult::Success
    }
}

proof fn lemma_count_named_bound(s: Seq<ItmEntryView>, g: Seq<GmdEntryView>, stride: u32, offset: u32)
    ensures
        count_named(s, g, stride, offset) <= s.len(),
    decreases s.len(),
{
    if s.len() > 0 {
        lemma_count_named_bound(s.drop_last(), g, stride, offset);
    }
}

/// In the string tables seen so far, an item's name is entry `2 * id`,
/// followed by its description.
pub const NAME_STRIDE: u32 = 2;

/// See [`NAME_STRIDE`].
pub const NAME_OFFSET: u32 = 0;

impl ItmDocument {
    /// Names every item from `gmd` by position: the item with id `n` takes
    /// the value of entry `2 * n`, where there is one.
    pub fn import_gmd(&mut self, gmd: &GmdDocument) -> (r: ItmImportResult)
        ensures
            items_view(final(self).entries@) == items_view(old(self).entries@).map_values(
                |e: ItmEntryView| linked(e, entries_view(gmd.entries@), NAME_STRIDE, NAME_OFFSET),
            ),
            r == import_result(
                count_named(
                    items_view(old(self).entries@),
                    entries_view(gmd.entries@),
                    NAME_STRIDE,
                    NAME_OFFSET,
                ),
                old(self).entries@.len(),
            ),
    {
        self.import_gmd_with(gmd, NAME_STRIDE, NAME_OFFSET)
    }

    /// Names every item from `gmd` by position: the item with id `n` takes
    /// the value of entry `stride * n + offset`, where there is one. The
    /// summary counts the items named; items past the end of `gmd` keep
    /// their name.
    pub fn import_gmd_with(&mut self, gmd: &GmdDocument, stride: u32, offset: u32) -> (r: ItmImportResult)
        ensures
            items_view(final(self).entries@) == items_view(old(self).entries@).map_values(
                |e: ItmEntryView| linked(e, entries_view(gmd.entries@), stride, offset),
            ),
            r == import_result(
                count_named(items_view(old(self).entries@), entries_view(gmd.entries@), stride, offset),
                old(self).entries@.len(),
            ),
    {
        let ghost before = items_view(self.entries@);
        let ghost g = entries_view(gmd.entries@);
        let mut imported: usize = 0;
        let mut i: usize = 0;
        while i < self.entries.len()
            invariant
                before == items_view(old(self).entries@),
                g == entries_view(gmd.entries@),
                self.entries@.len() == before.len(),
                i <= before.len(),
                imported == count_named(before.take(i as int), g, stride, offset),
                forall|j: int|
                    0 <= j < i ==> (#[trigger] self.entries@[j])@ == linked(before[j], g, stride, offset),
                forall|j: int| i <= j < before.len() ==> (#[trigger] self.entries@[j])@ == before[j],
            decreases before.len() - i,
        {
            proof {
                assert(before.take(i + 1).drop_last() =~= before.take(i as int));
                lemma_count_named_bound(before.take(i as int), g, stride, offset);
            }
            let id = self.entries[i].id;
            assert(id as u64 * stride as u64 <= 0xFFFF_FFFF * 0xFFFF_FFFF) by (nonlinear_arith);
            let t: u64 = id as u64 * stride as u64 + offset as u64;
            assert(t == name_index(before[i as int].id, stride, offset));
            if t < gmd.entries.len() as u64 {
                let value = gmd.entries[t as usize].value.clone();
                let old_entry = &self.entries[i];
                let entry = ItmEntry {
                    id: old_entry.id,
                    subtype: old_entry.subtype,
                    container_type: old_entry.container_type,
                    rarity: old_entry.rarity,
                    carry_limit: old_entry.carry_limit,
                    sort_order: old_entry.sort_order,
                    sell_price: old_entry.sell_price,
                    buy_price: old_entry.buy_price,
                    name: Some(value),
                };
                self.entries.set(i, entry);
                imported = imported + 1;
            }
            i = i + 1;
        }
        proof {
            assert(before.take(before.len() as int) =~= before);
            assert(items_view(self.entries@) =~= before.map_values(
                |e: ItmEntryView| linked(e, g, stride, offset),
            ));
        }
        if imported == 0 {
            ItmImportResult::NoEntriesImported
        } else if imported < self.entries.len() {
            ItmImportResult::PartialSuccess(imported)
        } else {
            ItmImportResult::Success
        }
    }
}

} // verus!
