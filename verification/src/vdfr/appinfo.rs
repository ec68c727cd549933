//! The application catalog: a header, the records of the applications up to
//! the record with id 0, and, in the newest version, a pool of key names
//! behind them.

use std::collections::HashMap;
use vstd::prelude::*;
use vstd::slice::slice_subrange;
use crate::vdfr::decode::{
    inline_keys, lemma_table_advances, parse_bytes_kv, pooled_keys, spec_table, texts, Dialect,
    KeyValueOptions, MAX_DEPTH,
};
use crate::vdfr::error::{truncated, ParseFault, ReadFault, VdfrError};
use crate::vdfr::reader::{
    has_bytes, le32, le64, read_fixed, read_i64_le, read_u32_le, read_u64_le, read_utf8_cstr,
    spec_i64_le, spec_u32_le, spec_utf8_cstr, Parsed,
};
use crate::vdfr::value::{KeyValue, Slot};

verus! {

/// The version before December 2022.
pub const MAGIC_27: u32 = 0x0756_4427;

/// The version before June 2024: a record has a second checksum.
pub const MAGIC_28: u32 = 0x0756_4428;

/// The newest version: keys are indices into a pool of strings.
pub const MAGIC_29: u32 = 0x0756_4429;

/// The bytes of a version-29 header: version, universe, offset of the pool.
pub const HEADER_29: usize = 16;

/// The record of one application: what the catalog notes of it, and its
/// tree of keys and values.
#[derive(Debug)]
pub struct App {
    pub id: u32,
    pub size: u32,
    pub state: u32,
    pub last_update: u32,
    pub access_token: u64,
    pub checksum_txt: [u8; 20],
    /// There from version 28 on.
    pub checksum_bin: Option<[u8; 20]>,
    pub change_number: u32,
    pub key_values: KeyValue,
}

/// An application's record, as mathematics.
pub struct AppView {
    pub id: u32,
    pub size: u32,
    pub state: u32,
    pub last_update: u32,
    pub access_token: u64,
    pub checksum_txt: Seq<u8>,
    pub checksum_bin: Option<Seq<u8>>,
    pub change_number: u32,
    pub key_values: Seq<Slot>,
}

impl View for App {
    type V = AppView;

    open spec fn view(&self) -> AppView {
        AppView {
            id: self.id,
            size: self.size,
            state: self.state,
            last_update: self.last_update,
            access_token: self.access_token,
            checksum_txt: self.checksum_txt@,
            checksum_bin: match self.checksum_bin {
                Some(sum) => Some(sum@),
                None => None,
            },
            change_number: self.change_number,
            key_values: self.key_values@,
        }
    }
}

/// The catalog: the applications by id.
#[derive(Debug)]
pub struct AppInfo {
    pub version: u32,
    pub universe: u32,
    pub apps: HashMap<u32, App>,
}

/// A catalog, as mathematics.
pub struct CatalogView {
    pub version: u32,
    pub universe: u32,
    pub apps: Map<u32, AppView>,
}

/// The records of a map of applications.
pub open spec fn app_views(apps: Map<u32, App>) -> Map<u32, AppView> {
    Map::new(|id: u32| apps.contains_key(id), |id: u32| apps[id]@)
}

impl View for AppInfo {
    type V = CatalogView;

    open spec fn view(&self) -> CatalogView {
        CatalogView { version: self.version, universe: self.universe, apps: app_views(self.apps@) }
    }
}

/// `count` strings one after the other, added to those in `acc`.
pub open spec fn spec_strings(b: Seq<u8>, pos: int, count: nat, acc: Seq<Seq<char>>) -> Parsed<
    Seq<Seq<char>>,
>
    decreases count,
{
    if count == 0 {
        Ok((acc, pos))
    } else {
        match spec_utf8_cstr(b, pos) {
            Err(e) => Err(e),
            Ok((text, next)) => spec_strings(b, next, (count - 1) as nat, acc.push(text)),
        }
    }
}

/// The pool of strings that `b` holds: a count, then as many strings.
pub open spec fn spec_pool(b: Seq<u8>) -> Result<Seq<Seq<char>>, VdfrError> {
    match spec_u32_le(b, 0) {
        Err(e) => Err(e),
        Ok((count, next)) => match spec_strings(b, next, count as nat, Seq::empty()) {
            Err(e) => Err(e),
            Ok((pool, _)) => Ok(pool),
        },
    }
}

/// The bytes of a record between its id and its table.
pub open spec fn record_head(version: u32) -> int {
    if version == MAGIC_27 {
        44
    } else {
        64
    }
}

/// The record at `pos`, or `None` where the id there is 0, which ends the
/// list and has no record behind it. After the id come size, state and
/// last update, the access token, the first checksum, the change number,
/// from version 28 on the second checksum, and the table.
pub open spec fn spec_app(b: Seq<u8>, pos: int, d: Dialect, version: u32) -> Parsed<Option<AppView>> {
    match spec_u32_le(b, pos) {
        Err(e) => Err(e),
        Ok((id, at)) => if id == 0 {
            Ok((None, at))
        } else if !has_bytes(b, at, record_head(version)) {
            Err(truncated())
        } else {
            match spec_table(b, at + record_head(version), d, MAX_DEPTH as nat, Seq::empty()) {
                Err(e) => Err(e),
                Ok((key_values, next)) => Ok(
                    (
                        Some(
                            AppView {
                                id,
                                size: le32(b, at) as u32,
                                state: le32(b, at + 4) as u32,
                                last_update: le32(b, at + 8) as u32,
                                access_token: le64(b, at + 12) as u64,
                                checksum_txt: b.subrange(at + 20, at + 40),
                                checksum_bin: if version == MAGIC_27 {
                                    None
                                } else {
                                    Some(b.subrange(at + 44, at + 64))
                                },
                                change_number: le32(b, at + 40) as u32,
                                key_values,
                            },
                        ),
                        next,
                    ),
                ),
            }
        },
    }
}

/// The records from `pos` up to the id 0, added to those in `acc`. Of two
/// records with one id the later one stays.
///
/// The comparison of positions never fails: it is what shows that the
/// definition is well-founded.
pub open spec fn spec_apps(
    b: Seq<u8>,
    pos: int,
    d: Dialect,
    version: u32,
    acc: Map<u32, AppView>,
) -> Result<Map<u32, AppView>, VdfrError>
    decreases b.len() - pos,
{
    match spec_app(b, pos, d, version) {
        Err(e) => Err(e),
        Ok((None, _)) => Ok(acc),
        Ok((Some(app), next)) => if pos < next <= b.len() {
            spec_apps(b, next, d, version, acc.insert(app.id, app))
        } else {
            Err(truncated())
        },
    }
}

/// The catalog that a file holds.
///
/// The version comes first and is judged before anything else is read.
/// Versions 27 and 28 go on with the universe and the records. Version 29
/// has, after the universe, the offset of the pool from the start of the
/// file: the records lie between the header and the pool, and their keys
/// are indices into it.
pub open spec fn spec_load(b: Seq<u8>) -> Result<CatalogView, VdfrError> {
    match spec_u32_le(b, 0) {
        Err(e) => Err(e),
        Ok((version, _)) => if version != MAGIC_27 && version != MAGIC_28 && version != MAGIC_29 {
            Err(VdfrError::UnknownMagic(version))
        } else {
            match spec_u32_le(b, 4) {
                Err(e) => Err(e),
                Ok((universe, _)) => match spec_records(b, version) {
                    Err(e) => Err(e),
                    Ok(apps) => Ok(CatalogView { version, universe, apps }),
                },
            }
        },
    }
}

/// Where the pool of a version-29 file starts: the offset that follows the
/// universe, which has to lie behind the header and inside the file.
pub open spec fn spec_pool_offset(b: Seq<u8>) -> Result<int, VdfrError> {
    match spec_i64_le(b, 8) {
        Err(e) => Err(e),
        Ok((offset, _)) => if offset < HEADER_29 {
            Err(VdfrError::ParseError(ParseFault::PoolOffset))
        } else if offset > b.len() {
            Err(truncated())
        } else {
            Ok(offset as int)
        },
    }
}

/// The pool of a version-29 file.
pub open spec fn spec_catalog_pool(b: Seq<u8>) -> Result<Seq<Seq<char>>, VdfrError> {
    match spec_pool_offset(b) {
        Err(e) => Err(e),
        Ok(offset) => spec_pool(b.subrange(offset, b.len() as int)),
    }
}

/// The records of a file of a known version whose first eight bytes are
/// there.
pub open spec fn spec_records(b: Seq<u8>, version: u32) -> Result<Map<u32, AppView>, VdfrError> {
    if version == MAGIC_29 {
        match spec_pool_offset(b) {
            Err(e) => Err(e),
            Ok(offset) => match spec_pool(b.subrange(offset, b.len() as int)) {
                Err(e) => Err(e),
                Ok(pool) => spec_apps(
                    b.subrange(HEADER_29 as int, offset),
                    0,
                    pooled_keys(pool),
                    version,
                    Map::empty(),
                ),
            },
        }
    } else {
        spec_apps(b.subrange(8, b.len() as int), 0, inline_keys(), version, Map::empty())
    }
}

/// Reads `amount` strings one after the other.
pub fn read_string_pools(data: &[u8], pos: usize, amount: usize) -> (r: Result<
    (Vec<String>, usize),
    VdfrError,
>)
    ensures
        match r {
            Ok((pool, next)) => {
                &&& spec_strings(data@, pos as int, amount as nat, Seq::empty()) == Ok::<
                    (Seq<Seq<char>>, int),
                    VdfrError,
                >((texts(pool@), next as int))
                &&& pool@.len() == amount
            },
            Err(e) => spec_strings(data@, pos as int, amount as nat, Seq::empty()) == Err::<
                (Seq<Seq<char>>, int),
                VdfrError,
            >(e),
        },
{
    let mut pool: Vec<String> = Vec::new();
    let mut at: usize = pos;
    let mut i: usize = 0;
    assert(texts(pool@) =~= Seq::<Seq<char>>::empty());
    while i < amount
        invariant
            i <= amount,
            pool@.len() == i,
            spec_strings(data@, pos as int, amount as nat, Seq::empty()) == spec_strings(
                data@,
                at as int,
                (amount - i) as nat,
                texts(pool@),
            ),
        decreases amount - i,
    {
        let ghost before = texts(pool@);
        match read_utf8_cstr(data, at) {
            Err(e) => {
                return Err(e);
            },
            Ok((text, next)) => {
                pool.push(text);
                assert(texts(pool@) =~= before.push(text@));
                at = next;
            },
        }
        i += 1;
    }
    Ok((pool, at))
}

/// Reads the record at `pos`.
pub fn parse_app(data: &[u8], pos: usize, options: &KeyValueOptions, version: u32) -> (r: Result<
    (Option<App>, usize),
    VdfrError,
>)
    ensures
        match r {
            Ok((Some(app), next)) => spec_app(data@, pos as int, options@, version) == Ok::<
                (Option<AppView>, int),
                VdfrError,
            >((Some(app@), next as int)),
            Ok((None, next)) => spec_app(data@, pos as int, options@, version) == Ok::<
                (Option<AppView>, int),
                VdfrError,
            >((None, next as int)),
            Err(e) => spec_app(data@, pos as int, options@, version) == Err::<
                (Option<AppView>, int),
                VdfrError,
            >(e),
        },
{
    let (id, at) = read_u32_le(data, pos)?;
    if id == 0 {
        return Ok((None, at));
    }
    let (size, p) = read_u32_le(data, at)?;
    let (state, p) = read_u32_le(data, p)?;
    let (last_update, p) = read_u32_le(data, p)?;
    let (access_token, p) = read_u64_le(data, p)?;
    let (checksum_txt, p) = read_fixed::<20>(data, p)?;
    let (change_number, p) = read_u32_le(data, p)?;
    let (checksum_bin, p) = if version == MAGIC_27 {
        (None, p)
    } else {
        let (sum, p) = read_fixed::<20>(data, p)?;
        (Some(sum), p)
    };
    let (key_values, next) = parse_bytes_kv(data, p, options)?;
    Ok(
        (
            Some(
                App {
                    id,
                    size,
                    state,
                    last_update,
                    access_token,
                    checksum_txt,
                    checksum_bin,
                    change_number,
                    key_values,
                },
            ),
            next,
        ),
    )
}

/// A record ends after the place where it starts, and inside the input.
proof fn lemma_app_advances(b: Seq<u8>, pos: int, d: Dialect, version: u32)
    ensures
        match spec_app(b, pos, d, version) {
            Ok((_, next)) => pos < next <= b.len(),
            Err(_) => true,
        },
{
    if let Ok((id, at)) = spec_u32_le(b, pos) {
        if id != 0 && has_bytes(b, at, record_head(version)) {
            lemma_table_advances(
                b,
                at + record_head(version),
                d,
                MAX_DEPTH as nat,
                Seq::empty(),
            );
        }
    }
}

/// Reads the records up to the id 0.
pub fn parse_apps(data: &[u8], options: &KeyValueOptions, version: u32) -> (r: Result<
    HashMap<u32, App>,
    VdfrError,
>)
    ensures
        match r {
            Ok(apps) => spec_apps(data@, 0, options@, version, Map::empty()) == Ok::<
                Map<u32, AppView>,
                VdfrError,
            >(app_views(apps@)),
            Err(e) => spec_apps(data@, 0, options@, version, Map::empty()) == Err::<
                Map<u32, AppView>,
                VdfrError,
            >(e),
        },
{
    let mut apps: HashMap<u32, App> = HashMap::new();
    let mut at: usize = 0;
    assert(app_views(apps@) =~= Map::<u32, AppView>::empty());
    loop
        invariant
            spec_apps(data@, 0, options@, version, Map::empty()) == spec_apps(
                data@,
                at as int,
                options@,
                version,
                app_views(apps@),
            ),
        decreases data.len() - at,
    {
        proof {
            lemma_app_advances(data@, at as int, options@, version);
        }
        match parse_app(data, at, options, version) {
            Err(e) => {
                return Err(e);
            },
            Ok((None, _)) => {
                return Ok(apps);
            },
            Ok((Some(app), next)) => {
                let ghost before = app_views(apps@);
                let ghost record = app@;
                apps.insert(app.id, app);
                assert(app_views(apps@) =~= before.insert(record.id, record));
                at = next;
            },
        }
    }
}

/// Whether `r` is what loading `b` gives.
pub open spec fn loaded(b: Seq<u8>, r: Result<AppInfo, VdfrError>) -> bool {
    match r {
        Ok(info) => spec_load(b) == Ok::<CatalogView, VdfrError>(info@),
        Err(e) => spec_load(b) == Err::<CatalogView, VdfrError>(e),
    }
}

impl AppInfo {
    /// Reads a catalog from the bytes of its file.
    pub fn load(data: &[u8]) -> (r: Result<AppInfo, VdfrError>)
        ensures
            loaded(data@, r),
            match r {
                Ok(info) => {
                    &&& !info.apps@.contains_key(0)
                    &&& forall|id: u32| #[trigger]
                        info.apps@.contains_key(id) ==> info.apps@[id].id == id && (
                        info.apps@[id].checksum_bin is Some <==> info.version != MAGIC_27)
                },
                Err(_) => true,
            },
    {
        let (version, _) = read_u32_le(data, 0)?;
        if version != MAGIC_27 && version != MAGIC_28 && version != MAGIC_29 {
            return Err(VdfrError::UnknownMagic(version));
        }
        let (universe, _) = read_u32_le(data, 4)?;
        let apps = if version == MAGIC_29 {
            let (offset, _) = read_i64_le(data, 8)?;
            if offset < 16 {
                return Err(VdfrError::ParseError(ParseFault::PoolOffset));
            }
            if offset as u64 > data.len() as u64 {
                return Err(VdfrError::ReadError(ReadFault::UnexpectedEnd));
            }
            let offset = offset as usize;
            let pool_bytes = slice_subrange(data, offset, data.len());
            let (count, at) = read_u32_le(pool_bytes, 0)?;
            let (string_pool, _) = read_string_pools(pool_bytes, at, count as usize)?;
            let options = KeyValueOptions { string_pool: Some(string_pool), alt_format: false };
            parse_apps(slice_subrange(data, HEADER_29, offset), &options, version)?
        } else {
            let options = KeyValueOptions::default();
            parse_apps(slice_subrange(data, 8, data.len()), &options, version)?
        };
        let info = AppInfo { version, universe, apps };
        proof {
            lemma_catalog_sound(data@);
            assert forall|id: u32| #[trigger] info.apps@.contains_key(id) implies info.apps@[id].id
                == id && (info.apps@[id].checksum_bin is Some <==> info.version != MAGIC_27) by {
                assert(info@.apps.contains_key(id));
                assert(info@.apps[id] == info.apps@[id]@);
            }
        }
        Ok(info)
    }
}

/// Whether no record is filed under 0, each record is filed under its own
/// id, and a record has its second checksum exactly from version 28 on.
pub open spec fn sound_apps(apps: Map<u32, AppView>, version: u32) -> bool {
    &&& !apps.contains_key(0)
    &&& forall|id: u32| #[trigger]
        apps.contains_key(id) ==> apps[id].id == id && (apps[id].checksum_bin is Some <==> version
            != MAGIC_27)
}

proof fn lemma_apps_sound(b: Seq<u8>, pos: int, d: Dialect, version: u32, acc: Map<u32, AppView>)
    requires
        sound_apps(acc, version),
    ensures
        match spec_apps(b, pos, d, version, acc) {
            Ok(apps) => sound_apps(apps, version),
            Err(_) => true,
        },
    decreases b.len() - pos,
{
    if let Ok((Some(app), next)) = spec_app(b, pos, d, version) {
        if pos < next <= b.len() {
            lemma_apps_sound(b, next, d, version, acc.insert(app.id, app));
        }
    }
}

/// A catalog that was read holds no record under the id 0, holds each
/// record under the record's own id, and has the second checksum in every
/// record or in none: in none exactly in version 27.
pub proof fn lemma_catalog_sound(b: Seq<u8>)
    ensures
        match spec_load(b) {
            Ok(catalog) => sound_apps(catalog.apps, catalog.version),
            Err(_) => true,
        },
{
    if let Ok((version, _)) = spec_u32_le(b, 0) {
        if version == MAGIC_29 {
            if let Ok(offset) = spec_pool_offset(b) {
                if let Ok(pool) = spec_pool(b.subrange(offset, b.len() as int)) {
                    lemma_apps_sound(
                        b.subrange(HEADER_29 as int, offset),
                        0,
                        pooled_keys(pool),
                        version,
                        Map::empty(),
                    );
                }
            }
        } else {
            lemma_apps_sound(b.subrange(8, b.len() as int), 0, inline_keys(), version, Map::empty());
        }
    }
}

} // verus!
