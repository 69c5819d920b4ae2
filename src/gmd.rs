//! The GMD localized string table: a header, a per-key info table, the key
//! texts and the value texts, aligned into an ordered list of entries.
use vstd::prelude::*;
use crate::cursor::{
    Eof, eof_at, u32_le, cstrs_spec, cstr_spec, strings_view, read_u32, skip,
    take_null_terminated_string, lemma_cstr_prefix, lemma_cstrs_prefix, eof_cut,
};

verus! {

/// The four bytes `"GMD\0"` read as a little-endian 32-bit value.
pub const GMD_MAGIC: u32 = 0x0044_4d47;

/// Size of the unread block between the info table and the key texts.
pub const UNKNOWN_BLOCK_SIZE: usize = 0x800;

/// Locale of a string table.
#[derive(Debug, Clone, Copy, PartialEq, Eq, Structural)]
pub enum Language {
    Japanese,
    English,
    French,
    Spanish,
    German,
    Italian,
    Korean,
    ChineseTraditional,
    ChineseSimplified,
    Russian,
    Polish,
    Portuguese,
    Arabic,
}

/// The language that a numeric locale code stands for; unassigned codes
/// have none.
pub open spec fn language_of(code: u32) -> Option<Language> {
    if code == 0 {
        Some(Language::Japanese)
    } else if code == 1 {
        Some(Language::English)
    } else if code == 2 {
        Some(Language::French)
    } else if code == 3 {
        Some(Language::Spanish)
    } else if code == 4 {
        Some(Language::German)
    } else if code == 5 {
        Some(Language::Italian)
    } else if code == 6 {
        Some(Language::Korean)
    } else if code == 7 {
        Some(Language::ChineseTraditional)
    } else if code == 8 {
        Some(Language::ChineseSimplified)
    } else if code == 10 {
        Some(Language::Russian)
    } else if code == 11 {
        Some(Language::Polish)
    } else if code == 21 {
        Some(Language::Portuguese)
    } else if code == 22 {
        Some(Language::Arabic)
    } else {
        None
    }
}

impl Language {
    /// Decodes a numeric locale code.
    pub fn from_code(code: u32) -> (r: Option<Language>)
        ensures
            r == language_of(code),
    {
        match code {
            0 => Some(Language::Japanese),
            1 => Some(Language::English),
            2 => Some(Language::French),
            3 => Some(Language::Spanish),
            4 => Some(Language::German),
            5 => Some(Language::Italian),
            6 => Some(Language::Korean),
            7 => Some(Language::ChineseTraditional),
            8 => Some(Language::ChineseSimplified),
            10 => Some(Language::Russian),
            11 => Some(Language::Polish),
            21 => Some(Language::Portuguese),
            22 => Some(Language::Arabic),
            _ => None,
        }
    }
}

/// Why a string table could not be decoded.
#[derive(Debug, Clone, Copy, PartialEq, Eq, Structural)]
pub enum GmdError {
    InvalidMagic,
    UnsupportedLanguageCode(u32),
    UnexpectedEof { needed: usize, available: usize },
    MalformedIndexTable,
}

pub open spec fn gmd_eof(e: Eof) -> GmdError {
    GmdError::UnexpectedEof { needed: e.needed, available: e.available }
}

fn eof_error(e: Eof) -> (r: GmdError)
    ensures
        r == gmd_eof(e),
{
    GmdError::UnexpectedEof { needed: e.needed, available: e.available }
}

/// The fixed part of a string table. The counts and block sizes drive the
/// decoding of what follows.
#[derive(Debug)]
pub struct GmdHeader {
    pub version: u32,
    pub language: Language,
    pub filename: String,
    pub key_count: u32,
    pub string_count: u32,
    pub key_block_size: u32,
    pub string_block_size: u32,
}

/// A header with its filename as text.
pub struct GmdHeaderView {
    pub version: u32,
    pub language: Language,
    pub filename: Seq<char>,
    pub key_count: u32,
    pub string_count: u32,
    pub key_block_size: u32,
    pub string_block_size: u32,
}

impl View for GmdHeader {
    type V = GmdHeaderView;

    open spec fn view(&self) -> GmdHeaderView {
        GmdHeaderView {
            version: self.version,
            language: self.language,
            filename: self.filename@,
            key_count: self.key_count,
            string_count: self.string_count,
            key_block_size: self.key_block_size,
            string_block_size: self.string_block_size,
        }
    }
}

/// The header at the start of `b`, and the position after it.
pub open spec fn header_spec(b: Seq<u8>) -> Result<(GmdHeaderView, int), GmdError> {
    if b.len() < 4 {
        Err(gmd_eof(eof_at(b, 0, 4)))
    } else if u32_le(b, 0) != GMD_MAGIC {
        Err(GmdError::InvalidMagic)
    } else if b.len() < 8 {
        Err(gmd_eof(eof_at(b, 4, 4)))
    } else if b.len() < 12 {
        Err(gmd_eof(eof_at(b, 8, 4)))
    } else if language_of(u32_le(b, 8)) is None {
        Err(GmdError::UnsupportedLanguageCode(u32_le(b, 8)))
    } else if b.len() < 20 {
        Err(gmd_eof(eof_at(b, 12, 8)))
    } else if b.len() < 24 {
        Err(gmd_eof(eof_at(b, 20, 4)))
    } else if b.len() < 28 {
        Err(gmd_eof(eof_at(b, 24, 4)))
    } else if b.len() < 32 {
        Err(gmd_eof(eof_at(b, 28, 4)))
    } else if b.len() < 36 {
        Err(gmd_eof(eof_at(b, 32, 4)))
    } else if b.len() < 40 {
        Err(gmd_eof(eof_at(b, 36, 4)))
    } else {
        match cstr_spec(b, 40) {
            Err(e) => Err(gmd_eof(e)),
            Ok((filename, q)) => Ok(
                (
                    GmdHeaderView {
                        version: u32_le(b, 4),
                        language: language_of(u32_le(b, 8))->Some_0,
                        filename,
                        key_count: u32_le(b, 20),
                        string_count: u32_le(b, 24),
                        key_block_size: u32_le(b, 28),
                        string_block_size: u32_le(b, 32),
                    },
                    q,
                ),
            ),
        }
    }
}

/// Decodes the header at the start of `input`; returns the position after
/// it with the header.
pub fn parse_header(input: &[u8]) -> (r: Result<(usize, GmdHeader), GmdError>)
    requires
        input@.len() < usize::MAX,
    ensures
        match r {
            Ok((q, h)) => header_spec(input@) == Ok::<(GmdHeaderView, int), GmdError>(
                (h@, q as int),
            ) && q <= input@.len(),
            Err(e) => header_spec(input@) == Err::<(GmdHeaderView, int), GmdError>(e),
        },
{
    let magic = match read_u32(input, 0) {
        Ok(v) => v,
        Err(e) => return Err(eof_error(e)),
    };
    if magic != GMD_MAGIC {
        return Err(GmdError::InvalidMagic);
    }
    let version = match read_u32(input, 4) {
        Ok(v) => v,
        Err(e) => return Err(eof_error(e)),
    };
    let code = match read_u32(input, 8) {
        Ok(v) => v,
        Err(e) => return Err(eof_error(e)),
    };
    let language = match Language::from_code(code) {
        Some(l) => l,
        None => return Err(GmdError::UnsupportedLanguageCode(code)),
    };
    match skip(input, 12, 8) {
        Ok(_) => {},
        Err(e) => return Err(eof_error(e)),
    }
    let key_count = match read_u32(input, 20) {
        Ok(v) => v,
        Err(e) => return Err(eof_error(e)),
    };
    let string_count = match read_u32(input, 24) {
        Ok(v) => v,
        Err(e) => return Err(eof_error(e)),
    };
    let key_block_size = match read_u32(input, 28) {
        Ok(v) => v,
        Err(e) => return Err(eof_error(e)),
    };
    let string_block_size = match read_u32(input, 32) {
        Ok(v) => v,
        Err(e) => return Err(eof_error(e)),
    };
    // The stored filename length is not used: the terminator ends the name.
    match skip(input, 36, 4) {
        Ok(_) => {},
        Err(e) => return Err(eof_error(e)),
    }
    let (filename, q) = match take_null_terminated_string(input, 40) {
        Ok(v) => v,
        Err(e) => return Err(eof_error(e)),
    };
    Ok(
        (
            q,
            GmdHeader {
                version,
                language,
                filename,
                key_count,
                string_count,
                key_block_size,
                string_block_size,
            },
        ),
    )
}

/// One value of a string table, with the key that claims it, if any.
#[derive(Debug)]
pub struct GmdEntry {
    pub key: Option<String>,
    pub value: String,
}

/// An entry with its texts as character sequences.
pub struct GmdEntryView {
    pub key: Option<Seq<char>>,
    pub value: Seq<char>,
}

impl View for GmdEntry {
    type V = GmdEntryView;

    open spec fn view(&self) -> GmdEntryView {
        GmdEntryView {
            key: match self.key {
                Some(k) => Some(k@),
                None => None,
            },
            value: self.value@,
        }
    }
}

/// The views of a sequence of entries.
pub open spec fn entries_view(v: Seq<GmdEntry>) -> Seq<GmdEntryView> {
    v.map_values(|e: GmdEntry| e@)
}

/// The string indexes of the first `n` info records, read from `p` on.
pub open spec fn info_spec(b: Seq<u8>, p: int, n: nat) -> Result<Seq<u32>, Eof>
    decreases n,
{
    if n == 0 {
        Ok(Seq::empty())
    } else {
        match info_spec(b, p, (n - 1) as nat) {
            Err(e) => Err(e),
            Ok(s) => {
                let q = p + 32 * (n - 1);
                if q + 4 > b.len() {
                    Err(eof_at(b, q, 4))
                } else if q + 32 > b.len() {
                    Err(eof_at(b, q + 4, 28))
                } else {
                    Ok(s.push(u32_le(b, q)))
                }
            },
        }
    }
}

/// Keyless entries for the values `strs[from..to]`.
pub open spec fn keyless(strs: Seq<Seq<char>>, from: int, to: int) -> Seq<GmdEntryView> {
    Seq::new((to - from) as nat, |k: int| GmdEntryView { key: None, value: strs[from + k] })
}

/// The entries up to and including the value of key `i - 1`: before each
/// key's value come, without a key, the values that no key claims. None
/// where a key's index falls behind the entries already made or past the
/// last value.
pub open spec fn align_keys(
    idx: Seq<u32>,
    keys: Seq<Seq<char>>,
    strs: Seq<Seq<char>>,
    i: nat,
) -> Option<Seq<GmdEntryView>>
    decreases i,
{
    if i == 0 {
        Some(Seq::empty())
    } else {
        match align_keys(idx, keys, strs, (i - 1) as nat) {
            None => None,
            Some(es) => {
                let t = idx[i - 1] as int;
                if t < es.len() || t >= strs.len() {
                    None
                } else {
                    Some(
                        (es + keyless(strs, es.len() as int, t)).push(
                            GmdEntryView { key: Some(keys[i - 1]), value: strs[t] },
                        ),
                    )
                }
            },
        }
    }
}

/// All entries: those of every key, then the values left over, without a key.
pub open spec fn align(idx: Seq<u32>, keys: Seq<Seq<char>>, strs: Seq<Seq<char>>) -> Option<
    Seq<GmdEntryView>,
> {
    match align_keys(idx, keys, strs, idx.len()) {
        None => None,
        Some(es) => Some(es + keyless(strs, es.len() as int, strs.len() as int)),
    }
}

/// The entries that follow a header with `kc` keys and `sc` values, from `p`
/// on, and the position after them.
pub open spec fn entries_spec(b: Seq<u8>, p: int, kc: u32, sc: u32) -> Result<
    (Seq<GmdEntryView>, int),
    GmdError,
> {
    match info_spec(b, p, kc as nat) {
        Err(e) => Err(gmd_eof(e)),
        Ok(idx) => {
            let q = p + 32 * kc;
            if q + 0x800 > b.len() {
                Err(gmd_eof(eof_at(b, q, 0x800)))
            } else {
                match cstrs_spec(b, q + 0x800, kc as nat) {
                    Err(e) => Err(gmd_eof(e)),
                    Ok((keys, r)) => match cstrs_spec(b, r, sc as nat) {
                        Err(e) => Err(gmd_eof(e)),
                        Ok((strs, t)) => match align(idx, keys, strs) {
                            None => Err(GmdError::MalformedIndexTable),
                            Some(es) => Ok((es, t)),
                        },
                    },
                }
            }
        },
    }
}

proof fn lemma_align_none_stays(
    idx: Seq<u32>,
    keys: Seq<Seq<char>>,
    strs: Seq<Seq<char>>,
    i: nat,
    n: nat,
)
    requires
        i <= n,
        align_keys(idx, keys, strs, i) is None,
    ensures
        align_keys(idx, keys, strs, n) is None,
    decreases n - i,
{
    if i < n {
        lemma_align_none_stays(idx, keys, strs, (i + 1) as nat, n);
    }
}

/// Reads `n` null-terminated texts from `p` on.
fn read_strings(input: &[u8], p: usize, n: u32) -> (r: Result<(Vec<String>, usize), Eof>)
    requires
        p <= input@.len(),
        input@.len() < usize::MAX,
    ensures
        match r {
            Ok((v, q)) => cstrs_spec(input@, p as int, n as nat) == Ok::<
                (Seq<Seq<char>>, int),
                Eof,
            >((strings_view(v@), q as int)) && q <= input@.len() && v@.len() == n,
            Err(e) => cstrs_spec(input@, p as int, n as nat) == Err::<
                (Seq<Seq<char>>, int),
                Eof,
            >(e),
        },
{
    let mut v: Vec<String> = Vec::new();
    let mut q: usize = p;
    let mut i: u32 = 0;
    assert(strings_view(v@) =~= Seq::<Seq<char>>::empty());
    while i < n
        invariant
            i <= n,
            v@.len() == i,
            q <= input@.len(),
            input@.len() < usize::MAX,
            cstrs_spec(input@, p as int, i as nat) == Ok::<(Seq<Seq<char>>, int), Eof>(
                (strings_view(v@), q as int),
            ),
        decreases n - i,
    {
        match take_null_terminated_string(input, q) {
            Ok((s, r)) => {
                proof {
                    assert(strings_view(v@.push(s)) =~= strings_view(v@).push(s@));
                }
                v.push(s);
                q = r;
            },
            Err(e) => {
                proof {
                    lemma_cstrs_err_stays(input@, p as int, (i + 1) as nat, n as nat);
                }
                return Err(e);
            },
        }
        i = i + 1;
    }
    Ok((v, q))
}

proof fn lemma_cstrs_err_stays(b: Seq<u8>, p: int, i: nat, n: nat)
    requires
        i <= n,
        cstrs_spec(b, p, i) is Err,
    ensures
        cstrs_spec(b, p, n) == cstrs_spec(b, p, i),
    decreases n - i,
{
    if i < n {
        lemma_cstrs_err_stays(b, p, (i + 1) as nat, n);
    }
}

proof fn lemma_info_err_stays(b: Seq<u8>, p: int, i: nat, n: nat)
    requires
        i <= n,
        info_spec(b, p, i) is Err,
    ensures
        info_spec(b, p, n) == info_spec(b, p, i),
    decreases n - i,
{
    if i < n {
        lemma_info_err_stays(b, p, (i + 1) as nat, n);
    }
}

/// Decodes the entries that follow `header`, starting at `pos`; returns the
/// position after them with the entries. Each key's value sits at the index
/// its info record gives; values that no key claims, including those after
/// the last key's value, become entries without a key.
pub fn parse_entries(input: &[u8], pos: usize, header: &GmdHeader) -> (r: Result<
    (usize, Vec<GmdEntry>),
    GmdError,
>)
    requires
        pos <= input@.len(),
        input@.len() < usize::MAX,
    ensures
        r is Ok ==> entries_spec(input@, pos as int, header.key_count, header.string_count)
            == Ok::<(Seq<GmdEntryView>, int), GmdError>(
            (entries_view(r->Ok_0.1@), r->Ok_0.0 as int),
        ),
        r is Err ==> entries_spec(input@, pos as int, header.key_count, header.string_count)
            == Err::<(Seq<GmdEntryView>, int), GmdError>(r->Err_0),
{
    let len = input.len();
    let kc = header.key_count;
    let sc = header.string_count;
    let mut info_indexes: Vec<u32> = Vec::new();
    let mut p: usize = pos;
    let mut i: u32 = 0;
    while i < kc
        invariant
            i <= kc,
            p <= input@.len(),
            len == input@.len(),
            kc == header.key_count,
            sc == header.string_count,
            p == pos + 32 * i,
            info_indexes@.len() == i,
            info_spec(input@, pos as int, i as nat) == Ok::<Seq<u32>, Eof>(info_indexes@),
        decreases kc - i,
    {
        let v = match read_u32(input, p) {
            Ok(v) => v,
            Err(e) => {
                proof {
                    lemma_info_err_stays(input@, pos as int, (i + 1) as nat, kc as nat);
                }
                return Err(eof_error(e));
            },
        };
        p = match skip(input, p + 4, 28) {
            Ok(q) => q,
            Err(e) => {
                proof {
                    lemma_info_err_stays(input@, pos as int, (i + 1) as nat, kc as nat);
                }
                return Err(eof_error(e));
            },
        };
        info_indexes.push(v);
        i = i + 1;
    }
    p = match skip(input, p, UNKNOWN_BLOCK_SIZE) {
        Ok(q) => q,
        Err(e) => return Err(eof_error(e)),
    };
    let (keys, kend) = match read_strings(input, p, kc) {
        Ok(v) => v,
        Err(e) => return Err(eof_error(e)),
    };
    let (strings, p) = match read_strings(input, kend, sc) {
        Ok(v) => v,
        Err(e) => return Err(eof_error(e)),
    };
    let ghost idx = info_indexes@;
    let ghost kv = strings_view(keys@);
    let ghost sv = strings_view(strings@);
    let mut entries: Vec<GmdEntry> = Vec::new();
    let mut k: usize = 0;
    while k < info_indexes.len()
        invariant
            k <= info_indexes@.len(),
            idx == info_indexes@,
            kc == header.key_count,
            sc == header.string_count,
            info_spec(input@, pos as int, kc as nat) == Ok::<Seq<u32>, Eof>(idx),
            pos + 32 * kc + 0x800 <= input@.len(),
            cstrs_spec(input@, pos + 32 * kc + 0x800, kc as nat) == Ok::<(Seq<Seq<char>>, int), Eof>((kv, kend as int)),
            cstrs_spec(input@, kend as int, sc as nat) == Ok::<(Seq<Seq<char>>, int), Eof>((sv, p as int)),
            idx.len() == kc,
            kv == strings_view(keys@),
            kv.len() == kc,
            sv == strings_view(strings@),
            sv.len() == sc,
            align_keys(idx, kv, sv, k as nat) == Some(entries_view(entries@)),
            entries@.len() <= sv.len(),
        decreases info_indexes@.len() - k,
    {
        let t = info_indexes[k] as usize;
        if t < entries.len() || t >= strings.len() {
            proof {
                lemma_align_none_stays(idx, kv, sv, (k + 1) as nat, idx.len());
            }
            return Err(GmdError::MalformedIndexTable);
        }
        let ghost es = entries_view(entries@);
        while entries.len() < t
            invariant
                es.len() <= entries@.len() <= t < sv.len(),
                sv == strings_view(strings@),
                entries_view(entries@) == es + keyless(sv, es.len() as int, entries@.len() as int),
            decreases t - entries@.len(),
        {
            let e = GmdEntry { key: None, value: strings[entries.len()].clone() };
            proof {
                assert(entries_view(entries@.push(e)) =~= entries_view(entries@).push(e@));
                assert(keyless(sv, es.len() as int, entries@.len() + 1 as int) =~= keyless(
                    sv,
                    es.len() as int,
                    entries@.len() as int,
                ).push(e@));
            }
            entries.push(e);
        }
        let e = GmdEntry { key: Some(keys[k].clone()), value: strings[t].clone() };
        proof {
            assert(entries_view(entries@.push(e)) =~= entries_view(entries@).push(e@));
        }
        entries.push(e);
        k = k + 1;
    }
    let ghost es = entries_view(entries@);
    while entries.len() < strings.len()
        invariant
            es.len() <= entries@.len() <= sv.len(),
            sv == strings_view(strings@),
            entries_view(entries@) == es + keyless(sv, es.len() as int, entries@.len() as int),
        decreases sv.len() - entries@.len(),
    {
        let e = GmdEntry { key: None, value: strings[entries.len()].clone() };
        proof {
            assert(entries_view(entries@.push(e)) =~= entries_view(entries@).push(e@));
            assert(keyless(sv, es.len() as int, entries@.len() + 1 as int) =~= keyless(
                sv,
                es.len() as int,
                entries@.len() as int,
            ).push(e@));
        }
        entries.push(e);
    }
    Ok((p, entries))
}

/// A decoded string table: its header and its entries in stored order.
#[derive(Debug)]
pub struct GmdDocument {
    pub header: GmdHeader,
    pub entries: Vec<GmdEntry>,
}

/// A string table as its header and entry views.
pub struct GmdDocumentView {
    pub header: GmdHeaderView,
    pub entries: Seq<GmdEntryView>,
}

impl View for GmdDocument {
    type V = GmdDocumentView;

    open spec fn view(&self) -> GmdDocumentView {
        GmdDocumentView { header: self.header@, entries: entries_view(self.entries@) }
    }
}

/// The string table at the start of `b`, and the position after it.
pub open spec fn document_spec(b: Seq<u8>) -> Result<(GmdDocumentView, int), GmdError> {
    match header_spec(b) {
        Err(e) => Err(e),
        Ok((h, p)) => match entries_spec(b, p, h.key_count, h.string_count) {
            Err(e) => Err(e),
            Ok((es, q)) => Ok((GmdDocumentView { header: h, entries: es }, q)),
        },
    }
}

/// The string table that `b` holds.
pub open spec fn gmd_spec(b: Seq<u8>) -> Result<GmdDocumentView, GmdError> {
    match document_spec(b) {
        Err(e) => Err(e),
        Ok((d, _)) => Ok(d),
    }
}

/// Decodes a string table; returns the position after it with the table.
pub fn parse_document(input: &[u8]) -> (r: Result<(usize, GmdDocument), GmdError>)
    requires
        input@.len() < usize::MAX,
    ensures
        r is Ok ==> document_spec(input@) == Ok::<(GmdDocumentView, int), GmdError>(
            (r->Ok_0.1@, r->Ok_0.0 as int),
        ),
        r is Err ==> document_spec(input@) == Err::<(GmdDocumentView, int), GmdError>(
            r->Err_0,
        ),
{
    let (p, header) = match parse_header(input) {
        Ok(v) => v,
        Err(e) => return Err(e),
    };
    let (q, entries) = match parse_entries(input, p, &header) {
        Ok(v) => v,
        Err(e) => return Err(e),
    };
    Ok((q, GmdDocument { header, entries }))
}

/// Decodes the string table that `input` holds.
pub fn parse(input: &[u8]) -> (r: Result<GmdDocument, GmdError>)
    requires
        input@.len() < usize::MAX,
    ensures
        r is Ok ==> gmd_spec(input@) == Ok::<GmdDocumentView, GmdError>(r->Ok_0@),
        r is Err ==> gmd_spec(input@) == Err::<GmdDocumentView, GmdError>(r->Err_0),
{
    match parse_document(input) {
        Ok((_, document)) => Ok(document),
        Err(e) => Err(e),
    }
}

/// The number of entries that carry a key.
pub open spec fn count_keyed(s: Seq<GmdEntryView>) -> nat
    decreases s.len(),
{
    if s.len() == 0 {
        0
    } else {
        count_keyed(s.drop_last()) + if s.last().key is Some {
            1nat
        } else {
            0nat
        }
    }
}

proof fn lemma_count_keyed_append(a: Seq<GmdEntryView>, b: Seq<GmdEntryView>)
    ensures
        count_keyed(a + b) == count_keyed(a) + count_keyed(b),
    decreases b.len(),
{
    if b.len() > 0 {
        assert((a + b).drop_last() =~= a + b.drop_last());
        lemma_count_keyed_append(a, b.drop_last());
    } else {
        assert(a + b =~= a);
    }
}

proof fn lemma_count_keyless(strs: Seq<Seq<char>>, from: int, to: int)
    requires
        from <= to,
    ensures
        count_keyed(keyless(strs, from, to)) == 0,
    decreases to - from,
{
    if from < to {
        assert(keyless(strs, from, to).drop_last() =~= keyless(strs, from, to - 1));
        lemma_count_keyless(strs, from, to - 1);
    }
}

proof fn lemma_cstrs_len(b: Seq<u8>, p: int, n: nat)
    requires
        cstrs_spec(b, p, n) is Ok,
    ensures
        cstrs_spec(b, p, n)->Ok_0.0.len() == n,
    decreases n,
{
    if n > 0 {
        lemma_cstrs_len(b, p, (n - 1) as nat);
    }
}

proof fn lemma_info_len(b: Seq<u8>, p: int, n: nat)
    requires
        info_spec(b, p, n) is Ok,
    ensures
        info_spec(b, p, n)->Ok_0.len() == n,
        n > 0 ==> p + 32 * n <= b.len(),
    decreases n,
{
    if n > 0 {
        lemma_info_len(b, p, (n - 1) as nat);
    }
}

/// After `i` keys, the entries run through the value of key `i - 1`, each
/// holds the value at its own position, and `i` of them carry a key.
/// The keys that entries carry, in entry order.
pub open spec fn present_keys(s: Seq<GmdEntryView>) -> Seq<Seq<char>>
    decreases s.len(),
{
    if s.len() == 0 {
        Seq::empty()
    } else {
        match s.last().key {
            Some(k) => present_keys(s.drop_last()).push(k),
            None => present_keys(s.drop_last()),
        }
    }
}

proof fn lemma_present_keys_append(a: Seq<GmdEntryView>, b: Seq<GmdEntryView>)
    ensures
        present_keys(a + b) == present_keys(a) + present_keys(b),
    decreases b.len(),
{
    if b.len() > 0 {
        assert((a + b).drop_last() =~= a + b.drop_last());
        lemma_present_keys_append(a, b.drop_last());
        let pa = present_keys(a);
        let pb = present_keys(b.drop_last());
        match b.last().key {
            Some(k) => {
                assert((pa + pb).push(k) =~= pa + pb.push(k));
            },
            None => {},
        }
    } else {
        assert(a + b =~= a);
        assert(present_keys(a) + present_keys(b) =~= present_keys(a));
    }
}

proof fn lemma_keyless_keys(strs: Seq<Seq<char>>, from: int, to: int)
    requires
        from <= to,
    ensures
        present_keys(keyless(strs, from, to)) == Seq::<Seq<char>>::empty(),
    decreases to - from,
{
    if from < to {
        assert(keyless(strs, from, to).drop_last() =~= keyless(strs, from, to - 1));
        lemma_keyless_keys(strs, from, to - 1);
    }
}

/// After `i` keys, the entries run through the value of key `i - 1`, each
/// holds the value at its own position, and the first `i` keys are the
/// keys they carry, in order.
proof fn lemma_align_keys_shape(
    idx: Seq<u32>,
    keys: Seq<Seq<char>>,
    strs: Seq<Seq<char>>,
    i: nat,
)
    requires
        i <= idx.len(),
        i <= keys.len(),
        align_keys(idx, keys, strs, i) is Some,
    ensures
        ({
            let es = align_keys(idx, keys, strs, i)->Some_0;
            &&& i > 0 ==> es.len() == idx[i - 1] + 1
            &&& i == 0 ==> es.len() == 0
            &&& es.len() <= strs.len()
            &&& count_keyed(es) == i
            &&& present_keys(es) == keys.take(i as int)
            &&& forall|j: int| 0 <= j < es.len() ==> (#[trigger] es[j]).value == strs[j]
        }),
    decreases i,
{
    if i > 0 {
        lemma_align_keys_shape(idx, keys, strs, (i - 1) as nat);
        let prev = align_keys(idx, keys, strs, (i - 1) as nat)->Some_0;
        let t = idx[i - 1] as int;
        let pad = keyless(strs, prev.len() as int, t);
        let last = GmdEntryView { key: Some(keys[i - 1]), value: strs[t] };
        lemma_count_keyless(strs, prev.len() as int, t);
        lemma_count_keyed_append(prev, pad);
        lemma_keyless_keys(strs, prev.len() as int, t);
        lemma_present_keys_append(prev, pad);
        assert((prev + pad).push(last).drop_last() =~= prev + pad);
        assert(present_keys(prev) + present_keys(pad) =~= present_keys(prev));
        assert(keys.take(i - 1).push(keys[i - 1]) =~= keys.take(i as int));
    } else {
        assert(keys.take(0) =~= Seq::<Seq<char>>::empty());
    }
}

/// The key texts stored in `b`, in stored order.
pub open spec fn stored_keys(b: Seq<u8>) -> Seq<Seq<char>> {
    let (h, p) = header_spec(b)->Ok_0;
    cstrs_spec(b, p + 32 * h.key_count + 0x800, h.key_count as nat)->Ok_0.0
}

/// The value texts stored in `b`, in stored order.
pub open spec fn stored_values(b: Seq<u8>) -> Seq<Seq<char>> {
    let (h, p) = header_spec(b)->Ok_0;
    let r = cstrs_spec(b, p + 32 * h.key_count + 0x800, h.key_count as nat)->Ok_0.1;
    cstrs_spec(b, r, h.string_count as nat)->Ok_0.0
}

/// A decoded table has one entry per stored value, each holding that value,
/// in the order stored; exactly as many entries carry a key as the header
/// declares keys, and the keys they carry are the stored keys in order.
pub proof fn lemma_entry_counts(b: Seq<u8>)
    requires
        gmd_spec(b) is Ok,
    ensures
        ({
            let d = gmd_spec(b)->Ok_0;
            &&& d.entries.len() == d.header.string_count
            &&& count_keyed(d.entries) == d.header.key_count
            &&& present_keys(d.entries) == stored_keys(b)
            &&& forall|j: int|
                0 <= j < d.entries.len() ==> (#[trigger] d.entries[j]).value == stored_values(b)[j]
        }),
{
    let (h, p) = header_spec(b)->Ok_0;
    let kc = h.key_count;
    let sc = h.string_count;
    let idx = info_spec(b, p, kc as nat)->Ok_0;
    let q = p + 32 * kc;
    let (keys, r) = cstrs_spec(b, q + 0x800, kc as nat)->Ok_0;
    let (strs, t) = cstrs_spec(b, r, sc as nat)->Ok_0;
    lemma_info_len(b, p, kc as nat);
    lemma_cstrs_len(b, q + 0x800, kc as nat);
    lemma_cstrs_len(b, r, sc as nat);
    lemma_align_keys_shape(idx, keys, strs, idx.len());
    let es = align_keys(idx, keys, strs, idx.len())->Some_0;
    let rest = keyless(strs, es.len() as int, strs.len() as int);
    lemma_count_keyless(strs, es.len() as int, strs.len() as int);
    lemma_count_keyed_append(es, rest);
    lemma_keyless_keys(strs, es.len() as int, strs.len() as int);
    lemma_present_keys_append(es, rest);
    assert(present_keys(es) + present_keys(rest) =~= present_keys(es));
    assert(keys.take(keys.len() as int) =~= keys);
    assert forall|j: int| 0 <= j < (es + rest).len() implies (#[trigger] (es + rest)[j]).value
        == strs[j] by {
        if j >= es.len() {
            assert((es + rest)[j] == rest[j - es.len()]);
        }
    }
}

/// Indexes in the info table must rise strictly from one key to the next: a
/// key whose index is below the one before it makes the table malformed,
/// unless the input ends before the table can be aligned.
pub proof fn lemma_decreasing_index_rejected(b: Seq<u8>, p: int, kc: u32, sc: u32, i: int)
    requires
        info_spec(b, p, kc as nat) is Ok,
        0 <= i && i + 1 < kc,
        info_spec(b, p, kc as nat)->Ok_0[i + 1] < info_spec(b, p, kc as nat)->Ok_0[i],
    ensures
        entries_spec(b, p, kc, sc) is Err,
        entries_spec(b, p, kc, sc)->Err_0 == GmdError::MalformedIndexTable
            || entries_spec(b, p, kc, sc)->Err_0 is UnexpectedEof,
{
    let idx = info_spec(b, p, kc as nat)->Ok_0;
    lemma_info_len(b, p, kc as nat);
    let q = p + 32 * kc;
    if q + 0x800 <= b.len() && cstrs_spec(b, q + 0x800, kc as nat) is Ok {
        let (keys, r) = cstrs_spec(b, q + 0x800, kc as nat)->Ok_0;
        lemma_cstrs_len(b, q + 0x800, kc as nat);
        if cstrs_spec(b, r, sc as nat) is Ok {
            let (strs, t) = cstrs_spec(b, r, sc as nat)->Ok_0;
            if align_keys(idx, keys, strs, (i + 1) as nat) is Some {
                lemma_align_keys_shape(idx, keys, strs, (i + 1) as nat);
                assert(align_keys(idx, keys, strs, (i + 2) as nat) is None);
                lemma_align_none_stays(idx, keys, strs, (i + 2) as nat, idx.len());
            } else {
                lemma_align_none_stays(idx, keys, strs, (i + 1) as nat, idx.len());
            }
        }
    }
}

/// `e` is a running-out failure in a buffer of `n` bytes, as `eof_cut`
/// describes, of a read that would have ended by `end`.
pub open spec fn gmd_cut(e: GmdError, n: int, end: int) -> bool {
    match e {
        GmdError::UnexpectedEof { needed, available } => eof_cut(
            Eof { needed, available },
            n,
            end,
        ),
        _ => false,
    }
}

proof fn lemma_info_prefix(b: Seq<u8>, p: int, k: nat, n: int)
    requires
        0 <= p <= n <= b.len(),
        b.len() < usize::MAX,
        info_spec(b, p, k) is Ok,
    ensures
        p + 32 * k <= n ==> info_spec(b.take(n), p, k) == info_spec(b, p, k),
        n < p + 32 * k ==> info_spec(b.take(n), p, k) is Err && eof_cut(
            info_spec(b.take(n), p, k)->Err_0,
            n,
            p + 32 * k,
        ),
    decreases k,
{
    if k > 0 {
        let q = p + 32 * (k - 1);
        lemma_info_prefix(b, p, (k - 1) as nat, n);
        lemma_info_len(b, p, k);
        if q + 4 <= n {
            assert(u32_le(b.take(n), q) == u32_le(b, q));
        }
    }
}

proof fn lemma_header_prefix(b: Seq<u8>, n: int)
    requires
        0 <= n <= b.len(),
        b.len() < usize::MAX,
        header_spec(b) is Ok,
    ensures
        40 < header_spec(b)->Ok_0.1 <= b.len(),
        header_spec(b)->Ok_0.1 <= n ==> header_spec(b.take(n)) == header_spec(b),
        n < header_spec(b)->Ok_0.1 ==> header_spec(b.take(n)) is Err && gmd_cut(
            header_spec(b.take(n))->Err_0,
            n,
            header_spec(b)->Ok_0.1,
        ),
{
    let c = b.take(n);
    lemma_cstr_prefix(b, 40, n);
    if n >= 4 {
        assert(u32_le(c, 0) == u32_le(b, 0));
    }
    if n >= 12 {
        assert(u32_le(c, 8) == u32_le(b, 8));
    }
    if n >= 40 {
        assert(u32_le(c, 4) == u32_le(b, 4));
        assert(u32_le(c, 20) == u32_le(b, 20));
        assert(u32_le(c, 24) == u32_le(b, 24));
        assert(u32_le(c, 28) == u32_le(b, 28));
        assert(u32_le(c, 32) == u32_le(b, 32));
    }
}

proof fn lemma_entries_prefix(b: Seq<u8>, p: int, kc: u32, sc: u32, n: int)
    requires
        0 <= p <= n <= b.len(),
        b.len() < usize::MAX,
        entries_spec(b, p, kc, sc) is Ok,
    ensures
        p <= entries_spec(b, p, kc, sc)->Ok_0.1 <= b.len(),
        entries_spec(b, p, kc, sc)->Ok_0.1 <= n ==> entries_spec(b.take(n), p, kc, sc)
            == entries_spec(b, p, kc, sc),
        n < entries_spec(b, p, kc, sc)->Ok_0.1 ==> entries_spec(b.take(n), p, kc, sc) is Err
            && gmd_cut(
            entries_spec(b.take(n), p, kc, sc)->Err_0,
            n,
            entries_spec(b, p, kc, sc)->Ok_0.1,
        ),
{
    let c = b.take(n);
    let q = p + 32 * kc;
    lemma_info_len(b, p, kc as nat);
    lemma_info_prefix(b, p, kc as nat, n);
    let (keys, r) = cstrs_spec(b, q + 0x800, kc as nat)->Ok_0;
    lemma_cstrs_prefix(b, q + 0x800, kc as nat, b.len() as int);
    lemma_cstrs_prefix(b, r, sc as nat, b.len() as int);
    if q + 0x800 <= n {
        lemma_cstrs_prefix(b, q + 0x800, kc as nat, n);
        if r <= n {
            lemma_cstrs_prefix(b, r, sc as nat, n);
        }
    }
}

/// Decoding any buffer cut short of the end of a table's last value fails
/// with `UnexpectedEof`, at a read that starts within the cut buffer and
/// would have ended within the table: `available` counts the bytes left
/// where that read starts, and `needed` is more than that.
pub proof fn lemma_truncated_table(b: Seq<u8>, n: int)
    requires
        b.len() < usize::MAX,
        document_spec(b) is Ok,
        0 <= n < document_spec(b)->Ok_0.1,
    ensures
        document_spec(b.take(n)) is Err,
        gmd_cut(document_spec(b.take(n))->Err_0, n, document_spec(b)->Ok_0.1),
{
    let (h, p) = header_spec(b)->Ok_0;
    lemma_header_prefix(b, b.len() as int);
    lemma_entries_prefix(b, p, h.key_count, h.string_count, b.len() as int);
    lemma_header_prefix(b, n);
    if p <= n {
        lemma_entries_prefix(b, p, h.key_count, h.string_count, n);
    }
}

} // verus!
