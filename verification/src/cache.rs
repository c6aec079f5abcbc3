//! The cache: the persisted snapshot of a full index, and its byte codec.
//!
//! A cache holds the dictionary path and one (filename, bitmap) entry per
//! indexed file, in build order.  On disk it is one byte string: every
//! text is length-prefixed, and the bitmap section's chunk count and width
//! stand in the header, so nothing is inferred from the file system on
//! reload.
//!
//! Layout, with every integer eight bytes little-endian:
//! dictionary-path length, dictionary-path bytes, entry count `n`, chunk
//! width `w`, then `n` length-prefixed filenames, then `n` bitmap chunks
//! of exactly `w` bytes each.

use vstd::prelude::*;
use vstd::bytes::spec_u64_to_le_bytes;
use vstd::bytes::spec_u64_from_le_bytes;
use vstd::bytes::u64_to_le_bytes;
use vstd::bytes::lemma_auto_spec_u64_to_from_le_bytes;
use vstd::utf8::encode_utf8;
use vstd::utf8::decode_utf8;
use vstd::utf8::valid_utf8;
use crate::bitmap::WordBitMapRow;
use crate::bitmap::spec_number_of_bytes;
use crate::bitmap::spec_get_bit;
use crate::bitmap::spec_build_bit;
use crate::words::views_of;
use crate::words::unique_norm_words;

verus! {

/// One indexed file: its name and its word-presence bitmap.
pub struct FileEntry {
    pub name: String,
    pub bitmap: WordBitMapRow,
}

/// The abstract value of a `FileEntry`.
#[verifier::ext_equal]
pub struct FileEntryV {
    pub name: Seq<char>,
    pub bitmap: Seq<u8>,
}

impl View for FileEntry {
    type V = FileEntryV;

    open spec fn view(&self) -> FileEntryV {
        FileEntryV { name: self.name@, bitmap: self.bitmap@ }
    }
}

/// The full index: the dictionary path it was built against and one entry
/// per indexed file, in build order.
pub struct Cache {
    pub dict_path: String,
    pub entries: Vec<FileEntry>,
}

/// The abstract value of a `Cache`.
#[verifier::ext_equal]
pub struct CacheV {
    pub dict_path: Seq<char>,
    pub entries: Seq<FileEntryV>,
}

impl View for Cache {
    type V = CacheV;

    open spec fn view(&self) -> CacheV {
        CacheV { dict_path: self.dict_path@, entries: self.entries@.map_values(|e: FileEntry| e@) }
    }
}

/// Why a cache byte string was rejected.
#[derive(Clone, Copy, Debug, PartialEq, Eq, Structural)]
pub enum CacheError {
    /// The byte string is not structurally a cache: a header, a length or
    /// a filename is short or unreadable.
    CacheUnreadable,
    /// The bitmap tail does not hold exactly one chunk of the stated
    /// width per filename.
    MalformedCacheLayout,
}

/// The bitmap width every entry of the cache must have.  An empty cache
/// has width zero.
pub open spec fn chunk_width(c: CacheV) -> nat {
    if c.entries.len() == 0 {
        0
    } else {
        c.entries[0].bitmap.len()
    }
}

/// Every entry's bitmap has the cache's one chunk width.
pub open spec fn cache_wf(c: CacheV) -> bool {
    forall|i: int|
        0 <= i < c.entries.len() ==> (#[trigger] c.entries[i]).bitmap.len() == chunk_width(c)
}

/// The counts and text lengths of the cache fit the header's integers.
/// Every cache held in memory satisfies this; it bounds what the spec-level
/// codec speaks of.
pub open spec fn cache_bounded(c: CacheV) -> bool {
    &&& encode_utf8(c.dict_path).len() <= u64::MAX
    &&& c.entries.len() <= u64::MAX
    &&& chunk_width(c) <= u64::MAX
    &&& forall|i: int|
        0 <= i < c.entries.len() ==> encode_utf8((#[trigger] c.entries[i]).name).len() <= u64::MAX
}

/// A length-prefixed text: eight little-endian length bytes, then the
/// text's UTF-8 bytes.
pub open spec fn enc_str(s: Seq<char>) -> Seq<u8> {
    spec_u64_to_le_bytes(encode_utf8(s).len() as u64) + encode_utf8(s)
}

/// The name section: each entry's name, length-prefixed, in order.
pub open spec fn names_enc(es: Seq<FileEntryV>) -> Seq<u8>
    decreases es.len(),
{
    if es.len() == 0 {
        Seq::empty()
    } else {
        names_enc(es.drop_last()) + enc_str(es.last().name)
    }
}

/// The bitmap section: each entry's bitmap bytes, in order.
pub open spec fn maps_enc(es: Seq<FileEntryV>) -> Seq<u8>
    decreases es.len(),
{
    if es.len() == 0 {
        Seq::empty()
    } else {
        maps_enc(es.drop_last()) + es.last().bitmap
    }
}

/// The byte string that persists a cache.
pub open spec fn spec_encode(c: CacheV) -> Seq<u8> {
    enc_str(c.dict_path) + spec_u64_to_le_bytes(c.entries.len() as u64) + spec_u64_to_le_bytes(
        chunk_width(c) as u64,
    ) + names_enc(c.entries) + maps_enc(c.entries)
}

/// Reads `n` length-prefixed texts from the front of `b`: the texts and
/// the bytes after them, or nothing when a length field or a text is short
/// or not UTF-8.
pub open spec fn spec_parse_names(b: Seq<u8>, n: int) -> Option<(Seq<Seq<char>>, Seq<u8>)>
    decreases n,
{
    if n <= 0 {
        Some((Seq::empty(), b))
    } else if b.len() < 8 {
        None
    } else {
        let l = spec_u64_from_le_bytes(b.subrange(0, 8)) as int;
        if b.len() < 8 + l {
            None
        } else {
            let nb = b.subrange(8, 8 + l);
            if !valid_utf8(nb) {
                None
            } else {
                match spec_parse_names(b.skip(8 + l), n - 1) {
                    None => None,
                    Some(p) => Some((seq![decode_utf8(nb)] + p.0, p.1)),
                }
            }
        }
    }
}

/// Prefixes the names already read to a parse's outcome.
spec fn parse_names_cont(
    done: Seq<Seq<char>>,
    r: Option<(Seq<Seq<char>>, Seq<u8>)>,
) -> Option<(Seq<Seq<char>>, Seq<u8>)> {
    match r {
        None => None,
        Some(p) => Some((done + p.0, p.1)),
    }
}

/// What a cache byte string holds: the cache, or why it is rejected.
pub open spec fn spec_decode(b: Seq<u8>) -> Result<CacheV, CacheError> {
    if b.len() < 8 {
        Err(CacheError::CacheUnreadable)
    } else {
        let dl = spec_u64_from_le_bytes(b.subrange(0, 8)) as int;
        if b.len() < 8 + dl {
            Err(CacheError::CacheUnreadable)
        } else {
            let pb = b.subrange(8, 8 + dl);
            if !valid_utf8(pb) {
                Err(CacheError::CacheUnreadable)
            } else {
                let rest = b.skip(8 + dl);
                if rest.len() < 16 {
                    Err(CacheError::CacheUnreadable)
                } else {
                    let n = spec_u64_from_le_bytes(rest.subrange(0, 8)) as int;
                    let w = spec_u64_from_le_bytes(rest.subrange(8, 16)) as int;
                    match spec_parse_names(rest.skip(16), n) {
                        None => Err(CacheError::CacheUnreadable),
                        Some(p) => {
                            let names = p.0;
                            let tail = p.1;
                            if tail.len() != n * w {
                                Err(CacheError::MalformedCacheLayout)
                            } else {
                                Ok(
                                    CacheV {
                                        dict_path: decode_utf8(pb),
                                        entries: Seq::new(
                                            n as nat,
                                            |i: int|
                                                FileEntryV {
                                                    name: names[i],
                                                    bitmap: tail.subrange(i * w, (i + 1) * w),
                                                },
                                        ),
                                    },
                                )
                            }
                        },
                    }
                }
            }
        }
    }
}

/// Relies on `str::as_bytes`: a string's bytes are the UTF-8 encoding of
/// its characters.
#[verifier::external_body]
fn string_utf8_bytes(s: &String) -> (r: Vec<u8>)
    ensures
        r@ == encode_utf8(s@),
{
    s.as_bytes().to_vec()
}

/// Relies on `String::from_utf8`: it accepts exactly the valid UTF-8 byte
/// strings, and returns the text whose encoding the bytes are.
#[verifier::external_body]
fn string_from_utf8(v: Vec<u8>) -> (r: Option<String>)
    ensures
        r is Some <==> valid_utf8(v@),
        r matches Some(s) ==> s@ == decode_utf8(v@),
{
    String::from_utf8(v).ok()
}

/// Appends a length-prefixed text to the output.
fn push_str_enc(out: &mut Vec<u8>, s: &String)
    ensures
        final(out)@ == old(out)@ + enc_str(s@),
{
    let mut bs = string_utf8_bytes(s);
    let mut lenb = u64_to_le_bytes(bs.len() as u64);
    proof {
        lemma_auto_spec_u64_to_from_le_bytes();
    }
    out.append(&mut lenb);
    out.append(&mut bs);
    proof {
        assert(out@ =~= old(out)@ + enc_str(s@));
    }
}

/// Serializes a cache as one byte string in the length-prefixed layout.
pub fn encode_cache(c: &Cache) -> (r: Vec<u8>)
    ensures
        r@ == spec_encode(c@),
{
    let mut out: Vec<u8> = Vec::new();
    push_str_enc(&mut out, &c.dict_path);
    let n = c.entries.len();
    let mut nb = u64_to_le_bytes(n as u64);
    out.append(&mut nb);
    let w: usize = if n == 0 {
        0
    } else {
        c.entries[0].bitmap.bytes.len()
    };
    proof {
        assert(w == chunk_width(c@));
    }
    let mut wb = u64_to_le_bytes(w as u64);
    out.append(&mut wb);
    let ghost head = out@;
    for i in 0..n
        invariant
            n == c.entries@.len(),
            out@ == head + names_enc(c@.entries.take(i as int)),
    {
        proof {
            assert(c@.entries.take(i + 1).drop_last() =~= c@.entries.take(i as int));
            assert(c@.entries.take(i + 1).last() == c@.entries[i as int]);
        }
        push_str_enc(&mut out, &c.entries[i].name);
        proof {
            assert(out@ =~= head + names_enc(c@.entries.take(i + 1)));
        }
    }
    proof {
        assert(c@.entries.take(n as int) =~= c@.entries);
    }
    let ghost head2 = out@;
    for i in 0..n
        invariant
            n == c.entries@.len(),
            out@ == head2 + maps_enc(c@.entries.take(i as int)),
    {
        proof {
            assert(c@.entries.take(i + 1).drop_last() =~= c@.entries.take(i as int));
            assert(c@.entries.take(i + 1).last() == c@.entries[i as int]);
        }
        let mut chunk = c.entries[i].bitmap.bytes.clone();
        proof {
            vstd::std_specs::vec::vec_clone_deep_view_proof(c.entries[i as int].bitmap.bytes, chunk);
            assert(chunk@ =~= c.entries[i as int].bitmap.bytes@);
        }
        out.append(&mut chunk);
        proof {
            assert(out@ =~= head2 + maps_enc(c@.entries.take(i + 1)));
        }
    }
    proof {
        assert(c@.entries.take(n as int) =~= c@.entries);
        assert(out@ =~= spec_encode(c@));
    }
    out
}

/// The eight-byte little-endian integer at `pos`.
fn read_u64(bytes: &Vec<u8>, pos: usize) -> (r: u64)
    requires
        pos + 8 <= bytes@.len(),
    ensures
        r == spec_u64_from_le_bytes(bytes@.subrange(pos as int, pos as int + 8)),
{
    let _total = bytes.len();
    let s = vstd::slice::slice_subrange(bytes.as_slice(), pos, pos + 8);
    vstd::bytes::u64_from_le_bytes(s)
}

/// The bytes of `bytes` from `from` (inclusive) to `to` (exclusive).
fn bytes_range(bytes: &Vec<u8>, from: usize, to: usize) -> (r: Vec<u8>)
    requires
        from <= to <= bytes@.len(),
    ensures
        r@ == bytes@.subrange(from as int, to as int),
{
    let _total = bytes.len();
    let s = vstd::slice::slice_subrange(bytes.as_slice(), from, to);
    vstd::slice::slice_to_vec(s)
}

/// Restores a cache from the byte string `encode_cache` wrote, or says
/// why the bytes are rejected: `CacheUnreadable` when a header, a length
/// or a filename is short or unreadable, `MalformedCacheLayout` when the
/// bitmap tail does not hold exactly one chunk of the stated width per
/// filename.
#[verifier::loop_isolation(false)]
pub fn decode_cache(bytes: &Vec<u8>) -> (r: Result<Cache, CacheError>)
    ensures
        r matches Ok(c) ==> spec_decode(bytes@) == Ok::<CacheV, CacheError>(c@),
        r matches Err(e) ==> spec_decode(bytes@) == Err::<CacheV, CacheError>(e),
{
    let len = bytes.len();
    if len < 8 {
        return Err(CacheError::CacheUnreadable);
    }
    let dl64 = read_u64(bytes, 0);
    if dl64 > (len - 8) as u64 {
        return Err(CacheError::CacheUnreadable);
    }
    let dl = dl64 as usize;
    let path_bytes = bytes_range(bytes, 8, 8 + dl);
    let dict_path = match string_from_utf8(path_bytes) {
        Some(s) => s,
        None => {
            return Err(CacheError::CacheUnreadable);
        },
    };
    let ghost rest = bytes@.skip(8 + dl as int);
    if len - (8 + dl) < 16 {
        proof {
            assert(rest.len() < 16);
        }
        return Err(CacheError::CacheUnreadable);
    }
    let n64 = read_u64(bytes, 8 + dl);
    let w64 = read_u64(bytes, 8 + dl + 8);
    proof {
        assert(rest.subrange(0, 8) =~= bytes@.subrange(8 + dl as int, 8 + dl as int + 8));
        assert(rest.subrange(8, 16) =~= bytes@.subrange(8 + dl as int + 8, 8 + dl as int + 16));
    }
    let mut pos: usize = 8 + dl + 16;
    let ghost rest0 = bytes@.skip(pos as int);
    proof {
        assert(rest0 =~= rest.skip(16));
    }
    let mut names: Vec<String> = Vec::new();
    let mut parsed: u64 = 0;
    while parsed < n64
        invariant
            pos <= len,
            len == bytes@.len(),
            parsed <= n64,
            names@.len() == parsed,
            spec_parse_names(rest0, n64 as int) == parse_names_cont(
                views_of(names@),
                spec_parse_names(bytes@.skip(pos as int), n64 as int - parsed as int),
            ),
        decreases n64 - parsed,
    {
        let ghost cur = bytes@.skip(pos as int);
        let ghost m = n64 as int - parsed as int;
        if len - pos < 8 {
            proof {
                assert(cur.len() < 8);
                assert(spec_parse_names(cur, m) is None);
            }
            return Err(CacheError::CacheUnreadable);
        }
        let l64 = read_u64(bytes, pos);
        proof {
            assert(cur.subrange(0, 8) =~= bytes@.subrange(pos as int, pos as int + 8));
        }
        if l64 > ((len - pos) as u64) - 8 {
            proof {
                assert(cur.len() < 8 + l64);
                assert(spec_parse_names(cur, m) is None);
            }
            return Err(CacheError::CacheUnreadable);
        }
        let l = l64 as usize;
        let name_bytes = bytes_range(bytes, pos + 8, pos + 8 + l);
        proof {
            assert(name_bytes@ =~= cur.subrange(8, 8 + l64 as int));
        }
        let name = match string_from_utf8(name_bytes) {
            Some(s) => s,
            None => {
                proof {
                    assert(spec_parse_names(cur, m) is None);
                }
                return Err(CacheError::CacheUnreadable);
            },
        };
        let ghost prenames = names@;
        names.push(name);
        pos = pos + 8 + l;
        parsed = parsed + 1;
        proof {
            assert(bytes@.skip(pos as int) =~= cur.skip(8 + l64 as int));
            let nb = cur.subrange(8, 8 + l64 as int);
            let sub = spec_parse_names(cur.skip(8 + l64 as int), m - 1);
            assert(spec_parse_names(cur, m) == (match sub {
                None => None::<(Seq<Seq<char>>, Seq<u8>)>,
                Some(p) => Some((seq![decode_utf8(nb)] + p.0, p.1)),
            }));
            match sub {
                None => {
                    assert(spec_parse_names(rest0, n64 as int) is None);
                },
                Some(p) => {
                    assert(views_of(prenames) + (seq![decode_utf8(nb)] + p.0) =~= views_of(names@)
                        + p.0);
                },
            }
        }
    }
    proof {
        assert(spec_parse_names(bytes@.skip(pos as int), 0) == Some(
            (Seq::<Seq<char>>::empty(), bytes@.skip(pos as int)),
        ));
        assert(views_of(names@) + Seq::<Seq<char>>::empty() =~= views_of(names@));
        assert(spec_parse_names(rest0, n64 as int) == Some(
            (views_of(names@), bytes@.skip(pos as int)),
        ));
    }
    let ghost tail = bytes@.skip(pos as int);
    let rem = len - pos;
    proof {
        assert(tail.len() == rem);
        assert((n64 as u128) * (w64 as u128) <= u128::MAX) by (nonlinear_arith)
            requires
                n64 <= u64::MAX,
                w64 <= u64::MAX,
        ;
    }
    if (n64 as u128) * (w64 as u128) != (rem as u128) {
        proof {
            assert(tail.len() != (n64 as int) * (w64 as int));
        }
        return Err(CacheError::MalformedCacheLayout);
    }
    proof {
        assert(tail.len() == (n64 as int) * (w64 as int));
    }
    let n = names.len();
    proof {
        assert(n == n64);
    }
    let mut entries: Vec<FileEntry> = Vec::new();
    for i in 0..n
        invariant
            n == names@.len(),
            n == n64,
            pos + tail.len() == bytes@.len(),
            len == bytes@.len(),
            tail == bytes@.skip(pos as int),
            tail.len() == (n64 as int) * (w64 as int),
            entries@.len() == i,
            forall|k: int|
                0 <= k < i ==> {
                    let e = #[trigger] entries@[k];
                    &&& e@.name == names@[k]@
                    &&& e@.bitmap == tail.subrange(k * (w64 as int), (k + 1) * (w64 as int))
                },
    {
        let w = w64 as usize;
        proof {
            assert((i + 1) * (w64 as int) <= (n64 as int) * (w64 as int)) by (nonlinear_arith)
                requires
                    0 <= i,
                    i < n64,
                    0 <= w64,
            ;
            assert(0 <= i * (w64 as int)) by (nonlinear_arith)
                requires
                    0 <= i,
                    0 <= w64,
            ;
            assert(i * (w64 as int) + w64 == (i + 1) * (w64 as int)) by (nonlinear_arith);
            assert(w64 as int <= (n64 as int) * (w64 as int)) by (nonlinear_arith)
                requires
                    1 <= n64,
                    0 <= w64,
            ;
            assert(w64 <= tail.len());
            assert(w == w64);
        }
        let start = pos + i * w;
        let chunk = bytes_range(bytes, start, start + w);
        proof {
            assert(chunk@ =~= tail.subrange(i * (w64 as int), (i + 1) * (w64 as int)));
        }
        let nm = names[i].clone();
        entries.push(FileEntry { name: nm, bitmap: WordBitMapRow { bytes: chunk } });
    }
    let c = Cache { dict_path, entries };
    proof {
        let d = spec_decode(bytes@);
        let ents = Seq::new(
            n64 as nat,
            |i: int|
                FileEntryV {
                    name: views_of(names@)[i],
                    bitmap: tail.subrange(i * (w64 as int), (i + 1) * (w64 as int)),
                },
        );
        assert(c@.entries =~= ents);
        assert(d matches Ok(dc) && dc =~= c@);
    }
    Ok(c)
}

/// Builds the full index over a file set: one entry per (filename,
/// contents) pair, in order, each bitmap built from the contents' unique
/// words against the dictionary.
pub fn build_cache(dict_path: String, dict_words: &Vec<String>, files: &Vec<(String, String)>) -> (r:
    Cache)
    requires
        dict_words@.len() + 7 <= usize::MAX,
    ensures
        r@.dict_path == dict_path@,
        r@.entries.len() == files@.len(),
        forall|i: int|
            0 <= i < files@.len() ==> {
                let e = #[trigger] r@.entries[i];
                &&& e.name == files@[i].0@
                &&& e.bitmap.len() == spec_number_of_bytes(dict_words@.len() as nat)
                &&& forall|j: int|
                    0 <= j < dict_words@.len() ==> spec_get_bit(e.bitmap, j) == spec_build_bit(
                        unique_norm_words(files@[i].1@),
                        views_of(dict_words@),
                        j,
                    )
                &&& forall|j: int|
                    dict_words@.len() <= j < e.bitmap.len() * 8 ==> !spec_get_bit(e.bitmap, j)
            },
        cache_wf(r@),
{
    let n = files.len();
    let mut entries: Vec<FileEntry> = Vec::new();
    for i in 0..n
        invariant
            n == files@.len(),
            dict_words@.len() + 7 <= usize::MAX,
            entries@.len() == i,
            forall|k: int|
                0 <= k < i ==> {
                    let e = (#[trigger] entries@[k])@;
                    &&& e.name == files@[k].0@
                    &&& e.bitmap.len() == spec_number_of_bytes(dict_words@.len() as nat)
                    &&& forall|j: int|
                        0 <= j < dict_words@.len() ==> spec_get_bit(e.bitmap, j) == spec_build_bit(
                            unique_norm_words(files@[k].1@),
                            views_of(dict_words@),
                            j,
                        )
                    &&& forall|j: int|
                        dict_words@.len() <= j < e.bitmap.len() * 8 ==> !spec_get_bit(e.bitmap, j)
                },
    {
        let name = files[i].0.clone();
        let ws = crate::words::get_unique_words_from_string(&files[i].1);
        let bm = WordBitMapRow::from_words_and_dict(&ws, dict_words);
        entries.push(FileEntry { name, bitmap: bm });
    }
    let c = Cache { dict_path, entries };
    proof {
        assert forall|i: int| 0 <= i < c@.entries.len() implies (#[trigger] c@.entries[i]).bitmap.len()
            == chunk_width(c@) by {
            assert(c@.entries[0].bitmap.len() == spec_number_of_bytes(dict_words@.len() as nat));
        }
    }
    c
}

/// The name section starts with the first entry's name.
proof fn lemma_names_enc_first(es: Seq<FileEntryV>)
    requires
        es.len() > 0,
    ensures
        names_enc(es) == enc_str(es[0].name) + names_enc(es.drop_first()),
    decreases es.len(),
{
    if es.len() == 1 {
        assert(es.drop_last().len() == 0);
        assert(es.drop_first().len() == 0);
        assert(names_enc(es.drop_last()) == Seq::<u8>::empty());
        assert(names_enc(es.drop_first()) == Seq::<u8>::empty());
        assert(names_enc(es) == names_enc(es.drop_last()) + enc_str(es.last().name));
        assert(es.last() == es[0]);
        assert(names_enc(es) =~= enc_str(es[0].name) + names_enc(es.drop_first()));
    } else {
        let dl = es.drop_last();
        lemma_names_enc_first(dl);
        assert(dl[0] == es[0]);
        assert(dl.drop_first() =~= es.drop_first().drop_last());
        assert(es.drop_first().last() == es.last());
        assert(names_enc(es) == names_enc(dl) + enc_str(es.last().name));
        assert(names_enc(es.drop_first()) == names_enc(es.drop_first().drop_last()) + enc_str(
            es.last().name,
        ));
        assert(names_enc(es) =~= enc_str(es[0].name) + names_enc(es.drop_first()));
    }
}

/// With every bitmap `w` bytes wide, the bitmap section is `n * w` bytes.
proof fn lemma_maps_enc_len(es: Seq<FileEntryV>, w: int)
    requires
        forall|i: int| 0 <= i < es.len() ==> (#[trigger] es[i]).bitmap.len() == w,
    ensures
        maps_enc(es).len() == es.len() * w,
    decreases es.len(),
{
    if es.len() == 0 {
    } else {
        let dl = es.drop_last();
        lemma_maps_enc_len(dl, w);
        assert(es.last().bitmap.len() == w);
        assert((es.len() - 1) * w + w == es.len() * w) by (nonlinear_arith);
    }
}

/// With every bitmap `w` bytes wide, chunk `i` of the bitmap section is
/// entry `i`'s bitmap.
proof fn lemma_maps_enc_chunk(es: Seq<FileEntryV>, w: int, i: int)
    requires
        forall|k: int| 0 <= k < es.len() ==> (#[trigger] es[k]).bitmap.len() == w,
        0 <= i < es.len(),
        0 <= w,
    ensures
        maps_enc(es).subrange(i * w, (i + 1) * w) == es[i].bitmap,
    decreases es.len(),
{
    let dl = es.drop_last();
    lemma_maps_enc_len(es, w);
    lemma_maps_enc_len(dl, w);
    assert(0 <= i * w && (i + 1) * w <= es.len() * w && i * w + w == (i + 1) * w)
        by (nonlinear_arith)
        requires
            0 <= i < es.len(),
            0 <= w,
    ;
    if i == es.len() - 1 {
        assert(maps_enc(es) == maps_enc(dl) + es.last().bitmap);
        assert(i * w == dl.len() * w) by (nonlinear_arith)
            requires
                i == dl.len(),
        ;
        assert(maps_enc(es).subrange(i * w, (i + 1) * w) =~= es[i].bitmap);
    } else {
        lemma_maps_enc_chunk(dl, w, i);
        assert((i + 1) * w <= dl.len() * w) by (nonlinear_arith)
            requires
                i + 1 <= dl.len(),
                0 <= w,
        ;
        assert(maps_enc(es).subrange(i * w, (i + 1) * w) =~= maps_enc(dl).subrange(
            i * w,
            (i + 1) * w,
        ));
        assert(dl[i] == es[i]);
    }
}

/// Parsing the name section gets every name back and leaves the bytes
/// after it untouched.
proof fn lemma_parse_names_enc(es: Seq<FileEntryV>, t: Seq<u8>)
    requires
        forall|i: int|
            0 <= i < es.len() ==> encode_utf8((#[trigger] es[i]).name).len() <= u64::MAX,
    ensures
        spec_parse_names(names_enc(es) + t, es.len() as int) == Some(
            (es.map_values(|e: FileEntryV| e.name), t),
        ),
    decreases es.len(),
{
    lemma_auto_spec_u64_to_from_le_bytes();
    if es.len() == 0 {
        assert(names_enc(es) + t =~= t);
        assert(es.map_values(|e: FileEntryV| e.name) =~= Seq::<Seq<char>>::empty());
    } else {
        let b = names_enc(es) + t;
        let name0 = es[0].name;
        let nb = encode_utf8(name0);
        let nl = nb.len() as int;
        lemma_names_enc_first(es);
        assert(b =~= enc_str(name0) + (names_enc(es.drop_first()) + t));
        assert(enc_str(name0).len() == 8 + nl);
        assert(b.len() >= 8);
        assert(b.subrange(0, 8) =~= spec_u64_to_le_bytes(nl as u64));
        assert(spec_u64_from_le_bytes(b.subrange(0, 8)) as int == nl);
        assert(b.len() >= 8 + nl);
        assert(b.subrange(8, 8 + nl) =~= nb);
        vstd::utf8::encode_utf8_valid_utf8(name0);
        vstd::utf8::encode_utf8_decode_utf8(name0);
        assert(b.skip(8 + nl) =~= names_enc(es.drop_first()) + t);
        assert forall|i: int| 0 <= i < es.drop_first().len() implies encode_utf8(
            (#[trigger] es.drop_first()[i]).name,
        ).len() <= u64::MAX by {
            assert(es.drop_first()[i] == es[i + 1]);
        }
        lemma_parse_names_enc(es.drop_first(), t);
        assert(seq![name0] + es.drop_first().map_values(|e: FileEntryV| e.name) =~= es.map_values(
            |e: FileEntryV| e.name,
        ));
    }
}

/// A cache that decodes is well-formed: every entry's bitmap has the one
/// chunk width the header stated.
pub proof fn lemma_decoded_cache_wf(b: Seq<u8>, c: CacheV)
    requires
        spec_decode(b) == Ok::<CacheV, CacheError>(c),
    ensures
        cache_wf(c),
{
    let dl = spec_u64_from_le_bytes(b.subrange(0, 8)) as int;
    let rest = b.skip(8 + dl);
    let n = spec_u64_from_le_bytes(rest.subrange(0, 8)) as int;
    let w = spec_u64_from_le_bytes(rest.subrange(8, 16)) as int;
    match spec_parse_names(rest.skip(16), n) {
        None => {
            assert(false);
        },
        Some(p) => {
            let tail = p.1;
            assert(tail.len() == n * w);
            assert(c.entries.len() == n);
            assert forall|i: int| 0 <= i < c.entries.len() implies (#[trigger] c.entries[i]).bitmap.len()
                == chunk_width(c) by {
                assert(0 <= i * w && i * w + w == (i + 1) * w && (i + 1) * w <= n * w)
                    by (nonlinear_arith)
                    requires
                        0 <= i < n,
                        0 <= w,
                ;
                assert(c.entries[i].bitmap.len() == w);
                assert(0 <= 0 * w && 0 * w + w == (0 + 1) * w && (0 + 1) * w <= n * w)
                    by (nonlinear_arith)
                    requires
                        0 < n,
                        0 <= w,
                ;
                assert(c.entries[0].bitmap.len() == w);
            }
        },
    }
}

/// Parsing the name section of a byte string with its last byte cut off
/// either fails outright, or reads the same names and loses the byte from
/// the bytes after them.
proof fn lemma_parse_names_drop_last(b: Seq<u8>, n: int)
    requires
        b.len() >= 1,
        spec_parse_names(b, n) is Some,
    ensures
        spec_parse_names(b.take(b.len() - 1), n) matches Some(p) ==> (spec_parse_names(b, n)
            matches Some(full) && p.0 == full.0 && full.1.len() >= 1 && p.1 == full.1.take(
            full.1.len() - 1,
        )),
    decreases n,
{
    let t = b.take(b.len() - 1);
    if n <= 0 {
        assert(spec_parse_names(b, n) == Some((Seq::<Seq<char>>::empty(), b)));
        assert(spec_parse_names(t, n) == Some((Seq::<Seq<char>>::empty(), t)));
        assert(t =~= b.take(b.len() - 1));
    } else {
        let l = spec_u64_from_le_bytes(b.subrange(0, 8)) as int;
        if t.len() < 8 {
        } else {
            assert(t.subrange(0, 8) =~= b.subrange(0, 8));
            if t.len() < 8 + l {
            } else {
                assert(t.subrange(8, 8 + l) =~= b.subrange(8, 8 + l));
                let rest = b.skip(8 + l);
                assert(rest.len() >= 1);
                assert(t.skip(8 + l) =~= rest.take(rest.len() - 1));
                lemma_parse_names_drop_last(rest, n - 1);
                match spec_parse_names(t.skip(8 + l), n - 1) {
                    None => {},
                    Some(sub) => {
                        let fullsub = spec_parse_names(rest, n - 1);
                        assert(fullsub is Some);
                    },
                }
            }
        }
    }
}

/// A persisted cache with its last byte cut off no longer decodes: the
/// loss is reported as an explicit error, never read silently as a
/// shorter index.
pub proof fn lemma_truncated_cache_rejected(c: CacheV)
    requires
        cache_wf(c),
        cache_bounded(c),
    ensures
        spec_decode(spec_encode(c).drop_last()) is Err,
{
    lemma_auto_spec_u64_to_from_le_bytes();
    let e = spec_encode(c);
    let dp = c.dict_path;
    let pb0 = encode_utf8(dp);
    let dlen = pb0.len() as int;
    let n = c.entries.len() as int;
    let w = chunk_width(c) as int;
    let names = names_enc(c.entries);
    let maps = maps_enc(c.entries);
    assert(e =~= enc_str(dp) + spec_u64_to_le_bytes(n as u64) + spec_u64_to_le_bytes(w as u64)
        + names + maps);
    assert(e.len() >= 24 + dlen);
    let t = e.drop_last();
    assert(t =~= e.take(e.len() - 1));
    assert(t.len() >= 8);
    assert(t.subrange(0, 8) =~= e.subrange(0, 8));
    assert(e.subrange(0, 8) =~= spec_u64_to_le_bytes(dlen as u64));
    assert(spec_u64_from_le_bytes(t.subrange(0, 8)) as int == dlen);
    assert(t.len() >= 8 + dlen);
    assert(t.subrange(8, 8 + dlen) =~= pb0);
    vstd::utf8::encode_utf8_valid_utf8(dp);
    let rest_e = e.skip(8 + dlen);
    let rest_t = t.skip(8 + dlen);
    assert(rest_e =~= spec_u64_to_le_bytes(n as u64) + spec_u64_to_le_bytes(w as u64) + names
        + maps);
    assert(rest_e.len() >= 16);
    assert(rest_t =~= rest_e.take(rest_e.len() - 1));
    if rest_t.len() < 16 {
        // the cut fell inside the counts: unreadable
    } else {
        assert(rest_t.subrange(0, 8) =~= rest_e.subrange(0, 8));
        assert(rest_t.subrange(8, 16) =~= rest_e.subrange(8, 16));
        assert(rest_e.subrange(0, 8) =~= spec_u64_to_le_bytes(n as u64));
        assert(rest_e.subrange(8, 16) =~= spec_u64_to_le_bytes(w as u64));
        let nm = names + maps;
        assert(rest_e.skip(16) =~= nm);
        assert(nm.len() >= 1);
        assert(rest_t.skip(16) =~= nm.take(nm.len() - 1));
        lemma_parse_names_enc(c.entries, maps);
        assert(spec_parse_names(nm, n) == Some(
            (c.entries.map_values(|e: FileEntryV| e.name), maps),
        ));
        lemma_parse_names_drop_last(nm, n);
        match spec_parse_names(nm.take(nm.len() - 1), n) {
            None => {
                // the cut broke a filename record: unreadable
            },
            Some(p) => {
                // every filename still reads; the bitmap tail is one byte
                // short of the chunk grid: malformed layout
                lemma_maps_enc_len(c.entries, w);
                assert(maps.len() >= 1);
                assert(p.1.len() == maps.len() - 1);
                assert(p.1.len() != n * w);
            },
        }
    }
}

/// Decoding an encoded cache gives the cache back: the dictionary path,
/// every filename and every bitmap byte are as they were.
pub proof fn lemma_cache_round_trip(c: CacheV)
    requires
        cache_wf(c),
        cache_bounded(c),
    ensures
        spec_decode(spec_encode(c)) == Ok::<CacheV, CacheError>(c),
{
    lemma_auto_spec_u64_to_from_le_bytes();
    let e = spec_encode(c);
    let dp = c.dict_path;
    let pb0 = encode_utf8(dp);
    let dlen = pb0.len() as int;
    let n = c.entries.len() as int;
    let w = chunk_width(c) as int;
    let nb = spec_u64_to_le_bytes(n as u64);
    let wb = spec_u64_to_le_bytes(w as u64);
    let names = names_enc(c.entries);
    let maps = maps_enc(c.entries);
    assert(e =~= enc_str(dp) + nb + wb + names + maps);
    assert(e.len() >= 8);
    assert(e.subrange(0, 8) =~= spec_u64_to_le_bytes(dlen as u64));
    assert(spec_u64_from_le_bytes(e.subrange(0, 8)) as int == dlen);
    assert(e.len() >= 8 + dlen);
    assert(e.subrange(8, 8 + dlen) =~= pb0);
    vstd::utf8::encode_utf8_valid_utf8(dp);
    vstd::utf8::encode_utf8_decode_utf8(dp);
    let rest = e.skip(8 + dlen);
    assert(rest =~= nb + wb + names + maps);
    assert(rest.len() >= 16);
    assert(rest.subrange(0, 8) =~= nb);
    assert(rest.subrange(8, 16) =~= wb);
    assert(spec_u64_from_le_bytes(rest.subrange(0, 8)) as int == n);
    assert(spec_u64_from_le_bytes(rest.subrange(8, 16)) as int == w);
    assert(rest.skip(16) =~= names + maps);
    lemma_parse_names_enc(c.entries, maps);
    let got_names = c.entries.map_values(|e: FileEntryV| e.name);
    assert(spec_parse_names(rest.skip(16), n) == Some((got_names, maps)));
    lemma_maps_enc_len(c.entries, w);
    assert(maps.len() == n * w);
    let ents = Seq::new(
        n as nat,
        |i: int| FileEntryV { name: got_names[i], bitmap: maps.subrange(i * w, (i + 1) * w) },
    );
    assert forall|i: int| 0 <= i < n implies ents[i] == c.entries[i] by {
        lemma_maps_enc_chunk(c.entries, w, i);
        assert(ents[i] =~= c.entries[i]);
    }
    assert(ents =~= c.entries);
    assert(spec_decode(e) matches Ok(d) && d =~= c);
}

} // verus!
