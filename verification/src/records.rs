use vstd::bytes::{
    spec_u128_from_le_bytes, spec_u128_to_le_bytes, spec_u32_from_le_bytes, spec_u32_to_le_bytes,
    spec_u64_from_le_bytes, spec_u64_to_le_bytes, u128_from_le_bytes, u128_to_le_bytes,
};
use vstd::prelude::*;
use vstd::utf8::{decode_utf8, encode_utf8, valid_utf8};

use crate::varint::{
    lemma_parse_varint_len, lemma_varint_len, lemma_varint_round_trip, read_varint, spec_varint,
    spec_parse_varint, write_varint, VarintParse,
};
use crate::wire::{push_bytes, read_bytes};

verus! {

/// Relies on String::from_utf8: it succeeds exactly on valid UTF-8 and
/// returns its decoding.
#[verifier::external_body]
pub(crate) fn bytes_to_string(b: Vec<u8>) -> (r: Option<String>)
    ensures
        match r {
            Some(s) => valid_utf8(b@) && s@ == decode_utf8(b@),
            None => !valid_utf8(b@),
        },
{
    match String::from_utf8(b) {
        Ok(s) => Some(s),
        Err(_) => None,
    }
}

/// Appends the UTF-8 bytes of `s`, length-prefixed with a varint.
fn push_str_field(out: &mut Vec<u8>, s: &str)
    requires
        old(out)@.len() + 10 + encode_utf8(s@).len() <= usize::MAX,
    ensures
        final(out)@ == old(out)@ + spec_varint(encode_utf8(s@).len() as u64) + encode_utf8(s@),
{
    let bytes = s.as_bytes();
    write_varint(out, bytes.len() as u64);
    push_bytes(out, bytes);
}

/// Appends the sixteen little-endian bytes of `x`.
fn push_u128_le(out: &mut Vec<u8>, x: u128)
    requires
        old(out)@.len() + 16 <= usize::MAX,
    ensures
        final(out)@ == old(out)@ + spec_u128_to_le_bytes(x),
{
    proof {
        vstd::bytes::lemma_auto_spec_u128_to_from_le_bytes();
    }
    let bytes = u128_to_le_bytes(x);
    push_bytes(out, bytes.as_slice());
}

/// Reads the u128 stored little-endian at `off`.
fn read_u128_le(data: &[u8], off: usize) -> (r: u128)
    requires
        off + 16 <= data@.len(),
    ensures
        r == spec_u128_from_le_bytes(data@.subrange(off as int, off + 16)),
{
    let dlen = data.len();
    proof {
        assert(off + 16 <= dlen);
    }
    let s = vstd::slice::slice_subrange(data, off, off + 16);
    u128_from_le_bytes(s)
}

/// The mathematical image of a history record.
pub struct HistoryEntryView {
    pub timestamp: u128,
    pub url_hash: u128,
    pub title: Seq<char>,
    pub visit_count: u32,
}

/// One visit of a page: when, the page's 128-bit address digest, its title,
/// and how often it was seen.
#[derive(Debug, Clone)]
pub struct HistoryEntry {
    pub timestamp: u128,
    pub url_hash: u128,
    pub title: String,
    pub visit_count: u32,
}

impl View for HistoryEntry {
    type V = HistoryEntryView;

    open spec fn view(&self) -> HistoryEntryView {
        HistoryEntryView {
            timestamp: self.timestamp,
            url_hash: self.url_hash,
            title: self.title@,
            visit_count: self.visit_count,
        }
    }
}

impl HistoryEntry {
    /// A first visit of a page at the caller's wall-clock time.
    pub fn new(url_hash: u128, title: String, now_ms: u64) -> (r: HistoryEntry)
        ensures
            r@ == (HistoryEntryView {
                timestamp: now_ms as u128,
                url_hash,
                title: title@,
                visit_count: 1u32,
            }),
    {
        HistoryEntry { timestamp: now_ms as u128, url_hash, title, visit_count: 1 }
    }

    /// Counts one more visit at the caller's wall-clock time. A count at
    /// the 32-bit ceiling is left out by precondition: the count would
    /// overflow there.
    pub fn increment_visit(&mut self, now_ms: u64)
        requires
            old(self).visit_count < u32::MAX,
        ensures
            final(self)@ == (HistoryEntryView {
                timestamp: now_ms as u128,
                visit_count: (old(self).visit_count + 1) as u32,
                ..old(self)@
            }),
    {
        self.visit_count = self.visit_count + 1;
        self.timestamp = now_ms as u128;
    }
}

/// The engine key of a history record: the address digest, little-endian.
pub open spec fn spec_history_key(url_hash: u128) -> Seq<u8> {
    spec_u128_to_le_bytes(url_hash)
}

/// Builds the engine key of a history record.
pub fn history_key(url_hash: u128) -> (r: Vec<u8>)
    ensures
        r@ == spec_history_key(url_hash),
{
    proof {
        vstd::bytes::lemma_auto_spec_u128_to_from_le_bytes();
    }
    u128_to_le_bytes(url_hash)
}

/// The stored value of a history record: both 128-bit figures little-endian,
/// the title length-prefixed in UTF-8, then the visit count.
pub open spec fn spec_history_value(v: HistoryEntryView) -> Seq<u8> {
    let tb = encode_utf8(v.title);
    spec_u128_to_le_bytes(v.timestamp) + spec_u128_to_le_bytes(v.url_hash) + spec_varint(
        tb.len() as u64,
    ) + tb + spec_u32_to_le_bytes(v.visit_count)
}

/// Serializes a history record into its stored value.
pub fn encode_history(e: &HistoryEntry) -> (r: Vec<u8>)
    requires
        encode_utf8(e.title@).len() + 56 <= usize::MAX,
    ensures
        r@ == spec_history_value(e@),
{
    proof {
        vstd::bytes::lemma_auto_spec_u128_to_from_le_bytes();
        vstd::bytes::lemma_auto_spec_u32_to_from_le_bytes();
        lemma_varint_len(encode_utf8(e.title@).len() as u64);
    }
    let mut out: Vec<u8> = Vec::new();
    push_u128_le(&mut out, e.timestamp);
    push_u128_le(&mut out, e.url_hash);
    push_str_field(&mut out, e.title.as_str());
    crate::wire::push_u32_le(&mut out, e.visit_count);
    proof {
        assert(out@ =~= spec_history_value(e@));
    }
    out
}

/// What reading bytes back as a history record yields: the record when the
/// bytes are exactly one well-formed encoding, nothing otherwise.
pub open spec fn spec_parse_history(data: Seq<u8>) -> Option<HistoryEntryView> {
    if data.len() < 32 {
        None
    } else {
        let ts = spec_u128_from_le_bytes(data.subrange(0, 16));
        let hash = spec_u128_from_le_bytes(data.subrange(16, 32));
        match spec_parse_varint(data.skip(32), 10) {
            VarintParse::Val(lv, n) => {
                let tl = lv % 0x1_0000_0000_0000_0000;
                let p = 32 + n;
                if data.len() - p < tl {
                    None
                } else {
                    let tb = data.subrange(p as int, p + tl);
                    if !valid_utf8(tb) {
                        None
                    } else if data.len() != p + tl + 4 {
                        None
                    } else {
                        Some(
                            HistoryEntryView {
                                timestamp: ts,
                                url_hash: hash,
                                title: decode_utf8(tb),
                                visit_count: spec_u32_from_le_bytes(
                                    data.subrange(p + tl, p + tl + 4),
                                ),
                            },
                        )
                    }
                }
            },
            _ => None,
        }
    }
}

/// Reads a stored value back as a history record; anything but exactly one
/// well-formed encoding yields nothing.
pub fn decode_history(data: &[u8]) -> (r: Option<HistoryEntry>)
    ensures
        match spec_parse_history(data@) {
            Some(v) => match r {
                Some(e) => e@ == v,
                None => false,
            },
            None => r is None,
        },
{
    let dlen = data.len();
    if dlen < 32 {
        return None;
    }
    let timestamp = read_u128_le(data, 0);
    let url_hash = read_u128_le(data, 16);
    let parsed = match read_varint(data, 32) {
        Ok(p) => p,
        Err(_) => {
            return None;
        },
    };
    let tl: u64 = parsed.0;
    let p: usize = parsed.1;
    proof {
        lemma_parse_varint_len(data@.skip(32), 10);
    }
    if tl > (dlen - p) as u64 {
        return None;
    }
    let tend = p + (tl as usize);
    let tb = read_bytes(data, p, tl as usize);
    proof {
        assert(tb@ =~= data@.subrange(p as int, p as int + tl as int));
    }
    let title = match bytes_to_string(tb) {
        Some(s) => s,
        None => {
            return None;
        },
    };
    if dlen - tend != 4 {
        return None;
    }
    let visit_count = crate::wire::read_u32_le(data, tend);
    Some(HistoryEntry { timestamp, url_hash, title, visit_count })
}

/// Reading a written history record yields the record back.
pub proof fn lemma_history_round_trip(v: HistoryEntryView)
    requires
        encode_utf8(v.title).len() <= usize::MAX,
    ensures
        spec_parse_history(spec_history_value(v)) == Some(v),
{
    let data = spec_history_value(v);
    let tb = encode_utf8(v.title);
    vstd::bytes::lemma_auto_spec_u128_to_from_le_bytes();
    vstd::bytes::lemma_auto_spec_u32_to_from_le_bytes();
    lemma_varint_len(tb.len() as u64);
    assert(data.subrange(0, 16) =~= spec_u128_to_le_bytes(v.timestamp));
    assert(data.subrange(16, 32) =~= spec_u128_to_le_bytes(v.url_hash));
    assert(data.skip(32) =~= spec_varint(tb.len() as u64) + (tb + spec_u32_to_le_bytes(
        v.visit_count,
    )));
    lemma_varint_round_trip(tb.len() as u64, tb + spec_u32_to_le_bytes(v.visit_count));
    let n = spec_varint(tb.len() as u64).len();
    let p: int = 32 + n as int;
    assert(data.subrange(p, p + tb.len()) =~= tb);
    broadcast use vstd::utf8::encode_utf8_valid_utf8;
    broadcast use vstd::utf8::encode_utf8_decode_utf8;

    assert(data.subrange(p + tb.len(), p + tb.len() + 4int) =~= spec_u32_to_le_bytes(
        v.visit_count,
    ));
}

/// The mathematical image of a cookie record.
pub struct CookieEntryView {
    pub domain_hash: u128,
    pub name: Seq<char>,
    pub value: Seq<char>,
    pub expiry: u64,
    pub flags: u8,
}

/// One cookie: the domain's digest, its name and value, when it expires, and
/// its flag bits.
#[derive(Debug, Clone)]
pub struct CookieEntry {
    pub domain_hash: u128,
    pub name: String,
    pub value: String,
    pub expiry: u64,
    pub flags: u8,
}

impl View for CookieEntry {
    type V = CookieEntryView;

    open spec fn view(&self) -> CookieEntryView {
        CookieEntryView {
            domain_hash: self.domain_hash,
            name: self.name@,
            value: self.value@,
            expiry: self.expiry,
            flags: self.flags,
        }
    }
}

impl CookieEntry {
    /// A cookie with no flag bits set.
    pub fn new(domain_hash: u128, name: String, value: String, expiry: u64) -> (r: CookieEntry)
        ensures
            r@ == (CookieEntryView { domain_hash, name: name@, value: value@, expiry, flags: 0u8 }),
    {
        CookieEntry { domain_hash, name, value, expiry, flags: 0 }
    }

    /// Sets the secure bit.
    pub fn set_secure(&mut self)
        ensures
            final(self)@ == (CookieEntryView { flags: old(self).flags | 1u8, ..old(self)@ }),
    {
        self.flags = self.flags | 1;
    }

    /// Sets the HTTP-only bit.
    pub fn set_httponly(&mut self)
        ensures
            final(self)@ == (CookieEntryView { flags: old(self).flags | 2u8, ..old(self)@ }),
    {
        self.flags = self.flags | 2;
    }

    /// Whether the secure bit is set.
    pub fn is_secure(&self) -> (r: bool)
        ensures
            r == (self.flags & 1u8 != 0),
    {
        (self.flags & 1) != 0
    }

    /// Whether the HTTP-only bit is set.
    pub fn is_httponly(&self) -> (r: bool)
        ensures
            r == (self.flags & 2u8 != 0),
    {
        (self.flags & 2) != 0
    }
}

/// The engine key of a cookie: the domain digest then the length-prefixed
/// name.
pub open spec fn spec_cookie_key(domain_hash: u128, name: Seq<char>) -> Seq<u8> {
    let nb = encode_utf8(name);
    spec_u128_to_le_bytes(domain_hash) + spec_varint(nb.len() as u64) + nb
}

/// Builds the engine key of a cookie.
pub fn cookie_key(domain_hash: u128, name: &str) -> (r: Vec<u8>)
    requires
        encode_utf8(name@).len() + 26 <= usize::MAX,
    ensures
        r@ == spec_cookie_key(domain_hash, name@),
{
    proof {
        lemma_varint_len(encode_utf8(name@).len() as u64);
        vstd::bytes::lemma_auto_spec_u128_to_from_le_bytes();
    }
    let mut out: Vec<u8> = Vec::new();
    push_u128_le(&mut out, domain_hash);
    push_str_field(&mut out, name);
    proof {
        assert(out@ =~= spec_cookie_key(domain_hash, name@));
    }
    out
}

/// The stored value of a cookie: digest, length-prefixed name and value,
/// expiry, then the flag byte.
pub open spec fn spec_cookie_value(v: CookieEntryView) -> Seq<u8> {
    let nb = encode_utf8(v.name);
    let vb = encode_utf8(v.value);
    spec_u128_to_le_bytes(v.domain_hash) + spec_varint(nb.len() as u64) + nb + spec_varint(
        vb.len() as u64,
    ) + vb + spec_u64_to_le_bytes(v.expiry) + seq![v.flags]
}

/// Serializes a cookie into its stored value.
pub fn encode_cookie(e: &CookieEntry) -> (r: Vec<u8>)
    requires
        encode_utf8(e.name@).len() + encode_utf8(e.value@).len() + 64 <= usize::MAX,
    ensures
        r@ == spec_cookie_value(e@),
{
    proof {
        lemma_varint_len(encode_utf8(e.name@).len() as u64);
        lemma_varint_len(encode_utf8(e.value@).len() as u64);
        vstd::bytes::lemma_auto_spec_u64_to_from_le_bytes();
        vstd::bytes::lemma_auto_spec_u128_to_from_le_bytes();
    }
    let mut out: Vec<u8> = Vec::new();
    push_u128_le(&mut out, e.domain_hash);
    push_str_field(&mut out, e.name.as_str());
    push_str_field(&mut out, e.value.as_str());
    crate::wire::push_u64_le(&mut out, e.expiry);
    out.push(e.flags);
    proof {
        assert(out@ =~= spec_cookie_value(e@));
    }
    out
}

/// The mathematical image of a cached response.
pub struct CacheEntryView {
    pub url_hash: u128,
    pub headers: Seq<char>,
    pub body: Seq<u8>,
    pub etag: Seq<char>,
    pub last_modified: u128,
}

/// One cached response: the address digest, its headers, the raw body, the
/// validator tag and the last-modified time.
#[derive(Debug, Clone)]
pub struct CacheEntry {
    pub url_hash: u128,
    pub headers: String,
    pub body: Vec<u8>,
    pub etag: String,
    pub last_modified: u128,
}

impl View for CacheEntry {
    type V = CacheEntryView;

    open spec fn view(&self) -> CacheEntryView {
        CacheEntryView {
            url_hash: self.url_hash,
            headers: self.headers@,
            body: self.body@,
            etag: self.etag@,
            last_modified: self.last_modified,
        }
    }
}

/// The stored value of a cached response: digest, length-prefixed headers,
/// body and tag, then the last-modified time.
pub open spec fn spec_cache_value(v: CacheEntryView) -> Seq<u8> {
    let hb = encode_utf8(v.headers);
    let eb = encode_utf8(v.etag);
    spec_u128_to_le_bytes(v.url_hash) + spec_varint(hb.len() as u64) + hb + spec_varint(
        v.body.len() as u64,
    ) + v.body + spec_varint(eb.len() as u64) + eb + spec_u128_to_le_bytes(v.last_modified)
}

/// Serializes a cached response into its stored value.
pub fn encode_cache(e: &CacheEntry) -> (r: Vec<u8>)
    requires
        encode_utf8(e.headers@).len() + e.body@.len() + encode_utf8(e.etag@).len() + 80
            <= usize::MAX,
    ensures
        r@ == spec_cache_value(e@),
{
    proof {
        lemma_varint_len(encode_utf8(e.headers@).len() as u64);
        lemma_varint_len(e.body@.len() as u64);
        lemma_varint_len(encode_utf8(e.etag@).len() as u64);
        vstd::bytes::lemma_auto_spec_u128_to_from_le_bytes();
    }
    let mut out: Vec<u8> = Vec::new();
    push_u128_le(&mut out, e.url_hash);
    push_str_field(&mut out, e.headers.as_str());
    write_varint(&mut out, e.body.len() as u64);
    push_bytes(&mut out, e.body.as_slice());
    push_str_field(&mut out, e.etag.as_str());
    push_u128_le(&mut out, e.last_modified);
    proof {
        assert(out@ =~= spec_cache_value(e@));
    }
    out
}

/// The mathematical image of a per-origin stored pair.
pub struct LocalStoreEntryView {
    pub origin_hash: u128,
    pub key: Seq<char>,
    pub value: Seq<char>,
}

/// One per-origin stored pair: the origin's digest, the entry's name and its
/// value.
#[derive(Debug, Clone)]
pub struct LocalStoreEntry {
    pub origin_hash: u128,
    pub key: String,
    pub value: String,
}

impl View for LocalStoreEntry {
    type V = LocalStoreEntryView;

    open spec fn view(&self) -> LocalStoreEntryView {
        LocalStoreEntryView { origin_hash: self.origin_hash, key: self.key@, value: self.value@ }
    }
}

/// The engine key of a stored pair: the origin digest then the
/// length-prefixed name.
pub open spec fn spec_localstore_key(origin_hash: u128, key: Seq<char>) -> Seq<u8> {
    let kb = encode_utf8(key);
    spec_u128_to_le_bytes(origin_hash) + spec_varint(kb.len() as u64) + kb
}

/// Builds the engine key of a stored pair.
pub fn localstore_key(origin_hash: u128, key: &str) -> (r: Vec<u8>)
    requires
        encode_utf8(key@).len() + 26 <= usize::MAX,
    ensures
        r@ == spec_localstore_key(origin_hash, key@),
{
    proof {
        lemma_varint_len(encode_utf8(key@).len() as u64);
        vstd::bytes::lemma_auto_spec_u128_to_from_le_bytes();
    }
    let mut out: Vec<u8> = Vec::new();
    push_u128_le(&mut out, origin_hash);
    push_str_field(&mut out, key);
    proof {
        assert(out@ =~= spec_localstore_key(origin_hash, key@));
    }
    out
}

/// The stored value of a per-origin pair: digest, length-prefixed name and
/// value.
pub open spec fn spec_localstore_value(v: LocalStoreEntryView) -> Seq<u8> {
    let kb = encode_utf8(v.key);
    let vb = encode_utf8(v.value);
    spec_u128_to_le_bytes(v.origin_hash) + spec_varint(kb.len() as u64) + kb + spec_varint(
        vb.len() as u64,
    ) + vb
}

/// Serializes a stored pair into its stored value.
pub fn encode_localstore(e: &LocalStoreEntry) -> (r: Vec<u8>)
    requires
        encode_utf8(e.key@).len() + encode_utf8(e.value@).len() + 56 <= usize::MAX,
    ensures
        r@ == spec_localstore_value(e@),
{
    proof {
        lemma_varint_len(encode_utf8(e.key@).len() as u64);
        lemma_varint_len(encode_utf8(e.value@).len() as u64);
        vstd::bytes::lemma_auto_spec_u128_to_from_le_bytes();
    }
    let mut out: Vec<u8> = Vec::new();
    push_u128_le(&mut out, e.origin_hash);
    push_str_field(&mut out, e.key.as_str());
    push_str_field(&mut out, e.value.as_str());
    proof {
        assert(out@ =~= spec_localstore_value(e@));
    }
    out
}


/// What reading bytes back as a cookie yields: the record when the bytes are
/// exactly one well-formed encoding, nothing otherwise.
pub open spec fn spec_parse_cookie(data: Seq<u8>) -> Option<CookieEntryView> {
    if data.len() < 16 {
        None
    } else {
        let hash = spec_u128_from_le_bytes(data.subrange(0, 16));
        match spec_parse_varint(data.skip(16), 10) {
            VarintParse::Val(nlv, n1) => {
                let nl = nlv % 0x1_0000_0000_0000_0000;
                let p = 16 + n1;
                if data.len() - p < nl {
                    None
                } else {
                    let nb = data.subrange(p as int, p + nl);
                    if !valid_utf8(nb) {
                        None
                    } else {
                        match spec_parse_varint(data.skip(p + nl), 10) {
                            VarintParse::Val(vlv, n2) => {
                                let vl = vlv % 0x1_0000_0000_0000_0000;
                                let q = p + nl + n2;
                                if data.len() - q < vl {
                                    None
                                } else {
                                    let vb = data.subrange(q as int, q + vl);
                                    if !valid_utf8(vb) {
                                        None
                                    } else if data.len() != q + vl + 9 {
                                        None
                                    } else {
                                        Some(
                                            CookieEntryView {
                                                domain_hash: hash,
                                                name: decode_utf8(nb),
                                                value: decode_utf8(vb),
                                                expiry: spec_u64_from_le_bytes(
                                                    data.subrange(q + vl, q + vl + 8),
                                                ),
                                                flags: data[q + vl + 8],
                                            },
                                        )
                                    }
                                }
                            },
                            _ => None,
                        }
                    }
                }
            },
            _ => None,
        }
    }
}

/// Reading a written cookie yields the record back.
#[verifier::rlimit(100)]
#[verifier::spinoff_prover]
pub proof fn lemma_cookie_round_trip(v: CookieEntryView)
    requires
        encode_utf8(v.name).len() <= usize::MAX,
        encode_utf8(v.value).len() <= usize::MAX,
    ensures
        spec_parse_cookie(spec_cookie_value(v)) == Some(v),
{
    let data = spec_cookie_value(v);
    let nb = encode_utf8(v.name);
    let vb = encode_utf8(v.value);
    vstd::bytes::lemma_auto_spec_u128_to_from_le_bytes();
    vstd::bytes::lemma_auto_spec_u64_to_from_le_bytes();
    lemma_varint_len(nb.len() as u64);
    lemma_varint_len(vb.len() as u64);
    vstd::utf8::encode_utf8_valid_utf8(v.name);
    vstd::utf8::encode_utf8_valid_utf8(v.value);
    vstd::utf8::encode_utf8_decode_utf8(v.name);
    vstd::utf8::encode_utf8_decode_utf8(v.value);
    assert(data.subrange(0, 16) =~= spec_u128_to_le_bytes(v.domain_hash));
    let tail1 = nb + spec_varint(vb.len() as u64) + vb + spec_u64_to_le_bytes(v.expiry) + seq![
        v.flags,
    ];
    assert(data.skip(16) =~= spec_varint(nb.len() as u64) + tail1);
    lemma_varint_round_trip(nb.len() as u64, tail1);
    let n1 = spec_varint(nb.len() as u64).len();
    let p: int = 16 + n1 as int;
    assert(data.subrange(p, p + nb.len()) =~= nb);
    let tail2 = vb + spec_u64_to_le_bytes(v.expiry) + seq![v.flags];
    assert(data.skip(p + nb.len()) =~= spec_varint(vb.len() as u64) + tail2);
    lemma_varint_round_trip(vb.len() as u64, tail2);
    let n2 = spec_varint(vb.len() as u64).len();
    let q: int = p + nb.len() + n2 as int;
    assert(data.subrange(q, q + vb.len()) =~= vb);
    assert(data.subrange(q + vb.len(), q + vb.len() + 8int) =~= spec_u64_to_le_bytes(v.expiry));
    assert(data[q + vb.len() + 8] == v.flags);
}

/// What reading bytes back as a cached response yields: the record when the
/// bytes are exactly one well-formed encoding, nothing otherwise.
pub open spec fn spec_parse_cache(data: Seq<u8>) -> Option<CacheEntryView> {
    if data.len() < 16 {
        None
    } else {
        let hash = spec_u128_from_le_bytes(data.subrange(0, 16));
        match spec_parse_varint(data.skip(16), 10) {
            VarintParse::Val(hlv, n1) => {
                let hl = hlv % 0x1_0000_0000_0000_0000;
                let p = 16 + n1;
                if data.len() - p < hl {
                    None
                } else {
                    let hb = data.subrange(p as int, p + hl);
                    if !valid_utf8(hb) {
                        None
                    } else {
                        match spec_parse_varint(data.skip(p + hl), 10) {
                            VarintParse::Val(blv, n2) => {
                                let bl = blv % 0x1_0000_0000_0000_0000;
                                let q = p + hl + n2;
                                if data.len() - q < bl {
                                    None
                                } else {
                                    let body = data.subrange(q as int, q + bl);
                                    match spec_parse_varint(data.skip(q + bl), 10) {
                                        VarintParse::Val(elv, n3) => {
                                            let el = elv % 0x1_0000_0000_0000_0000;
                                            let w = q + bl + n3;
                                            if data.len() - w < el {
                                                None
                                            } else {
                                                let eb = data.subrange(w as int, w + el);
                                                if !valid_utf8(eb) {
                                                    None
                                                } else if data.len() != w + el + 16 {
                                                    None
                                                } else {
                                                    Some(
                                                        CacheEntryView {
                                                            url_hash: hash,
                                                            headers: decode_utf8(hb),
                                                            body: body,
                                                            etag: decode_utf8(eb),
                                                            last_modified:
                                                                spec_u128_from_le_bytes(
                                                                data.subrange(
                                                                    w + el,
                                                                    w + el + 16,
                                                                ),
                                                            ),
                                                        },
                                                    )
                                                }
                                            }
                                        },
                                        _ => None,
                                    }
                                }
                            },
                            _ => None,
                        }
                    }
                }
            },
            _ => None,
        }
    }
}

/// Reading a written cached response yields the record back.
#[verifier::rlimit(100)]
#[verifier::spinoff_prover]
pub proof fn lemma_cache_round_trip(v: CacheEntryView)
    requires
        encode_utf8(v.headers).len() <= usize::MAX,
        v.body.len() <= usize::MAX,
        encode_utf8(v.etag).len() <= usize::MAX,
    ensures
        spec_parse_cache(spec_cache_value(v)) == Some(v),
{
    let data = spec_cache_value(v);
    let hb = encode_utf8(v.headers);
    let eb = encode_utf8(v.etag);
    vstd::bytes::lemma_auto_spec_u128_to_from_le_bytes();
    lemma_varint_len(hb.len() as u64);
    lemma_varint_len(v.body.len() as u64);
    lemma_varint_len(eb.len() as u64);
    vstd::utf8::encode_utf8_valid_utf8(v.headers);
    vstd::utf8::encode_utf8_valid_utf8(v.etag);
    vstd::utf8::encode_utf8_decode_utf8(v.headers);
    vstd::utf8::encode_utf8_decode_utf8(v.etag);
    assert(data.subrange(0, 16) =~= spec_u128_to_le_bytes(v.url_hash));
    let tail1 = hb + spec_varint(v.body.len() as u64) + v.body + spec_varint(eb.len() as u64)
        + eb + spec_u128_to_le_bytes(v.last_modified);
    assert(data.skip(16) =~= spec_varint(hb.len() as u64) + tail1);
    lemma_varint_round_trip(hb.len() as u64, tail1);
    let n1 = spec_varint(hb.len() as u64).len();
    let p: int = 16 + n1 as int;
    assert(data.subrange(p, p + hb.len()) =~= hb);
    let tail2 = v.body + spec_varint(eb.len() as u64) + eb + spec_u128_to_le_bytes(
        v.last_modified,
    );
    assert(data.skip(p + hb.len()) =~= spec_varint(v.body.len() as u64) + tail2);
    lemma_varint_round_trip(v.body.len() as u64, tail2);
    let n2 = spec_varint(v.body.len() as u64).len();
    let q: int = p + hb.len() + n2 as int;
    assert(data.subrange(q, q + v.body.len()) =~= v.body);
    let tail3 = eb + spec_u128_to_le_bytes(v.last_modified);
    assert(data.skip(q + v.body.len()) =~= spec_varint(eb.len() as u64) + tail3);
    lemma_varint_round_trip(eb.len() as u64, tail3);
    let n3 = spec_varint(eb.len() as u64).len();
    let w: int = q + v.body.len() + n3 as int;
    assert(data.subrange(w, w + eb.len()) =~= eb);
    assert(data.subrange(w + eb.len(), w + eb.len() + 16int) =~= spec_u128_to_le_bytes(
        v.last_modified,
    ));
}

/// What reading bytes back as a per-origin pair yields: the record when the
/// bytes are exactly one well-formed encoding, nothing otherwise.
pub open spec fn spec_parse_localstore(data: Seq<u8>) -> Option<LocalStoreEntryView> {
    if data.len() < 16 {
        None
    } else {
        let hash = spec_u128_from_le_bytes(data.subrange(0, 16));
        match spec_parse_varint(data.skip(16), 10) {
            VarintParse::Val(klv, n1) => {
                let kl = klv % 0x1_0000_0000_0000_0000;
                let p = 16 + n1;
                if data.len() - p < kl {
                    None
                } else {
                    let kb = data.subrange(p as int, p + kl);
                    if !valid_utf8(kb) {
                        None
                    } else {
                        match spec_parse_varint(data.skip(p + kl), 10) {
                            VarintParse::Val(vlv, n2) => {
                                let vl = vlv % 0x1_0000_0000_0000_0000;
                                let q = p + kl + n2;
                                if data.len() - q < vl {
                                    None
                                } else {
                                    let vb = data.subrange(q as int, q + vl);
                                    if !valid_utf8(vb) {
                                        None
                                    } else if data.len() != q + vl {
                                        None
                                    } else {
                                        Some(
                                            LocalStoreEntryView {
                                                origin_hash: hash,
                                                key: decode_utf8(kb),
                                                value: decode_utf8(vb),
                                            },
                                        )
                                    }
                                }
                            },
                            _ => None,
                        }
                    }
                }
            },
            _ => None,
        }
    }
}

/// Reading a written per-origin pair yields the record back.
#[verifier::rlimit(50)]
#[verifier::spinoff_prover]
pub proof fn lemma_localstore_round_trip(v: LocalStoreEntryView)
    requires
        encode_utf8(v.key).len() <= usize::MAX,
        encode_utf8(v.value).len() <= usize::MAX,
    ensures
        spec_parse_localstore(spec_localstore_value(v)) == Some(v),
{
    let data = spec_localstore_value(v);
    let kb = encode_utf8(v.key);
    let vb = encode_utf8(v.value);
    vstd::bytes::lemma_auto_spec_u128_to_from_le_bytes();
    lemma_varint_len(kb.len() as u64);
    lemma_varint_len(vb.len() as u64);
    broadcast use vstd::utf8::encode_utf8_valid_utf8;
    broadcast use vstd::utf8::encode_utf8_decode_utf8;

    assert(data.subrange(0, 16) =~= spec_u128_to_le_bytes(v.origin_hash));
    let tail1 = kb + spec_varint(vb.len() as u64) + vb;
    assert(data.skip(16) =~= spec_varint(kb.len() as u64) + tail1);
    lemma_varint_round_trip(kb.len() as u64, tail1);
    let n1 = spec_varint(kb.len() as u64).len();
    let p: int = 16 + n1 as int;
    assert(data.subrange(p, p + kb.len()) =~= kb);
    let tail2 = vb;
    assert(data.skip(p + kb.len()) =~= spec_varint(vb.len() as u64) + tail2);
    lemma_varint_round_trip(vb.len() as u64, tail2);
    let n2 = spec_varint(vb.len() as u64).len();
    let q: int = p + kb.len() + n2 as int;
    assert(data.subrange(q, q + vb.len()) =~= vb);
}

/// The mathematical image of a setting.
pub struct SettingEntryView {
    pub key: Seq<char>,
    pub value: Seq<char>,
}

/// One setting: its name and its value, both text.
#[derive(Debug, Clone)]
pub struct SettingEntry {
    pub key: String,
    pub value: String,
}

impl View for SettingEntry {
    type V = SettingEntryView;

    open spec fn view(&self) -> SettingEntryView {
        SettingEntryView { key: self.key@, value: self.value@ }
    }
}

impl SettingEntry {
    /// Builds a setting.
    pub fn new(key: String, value: String) -> (r: SettingEntry)
        ensures
            r@ == (SettingEntryView { key: key@, value: value@ }),
    {
        SettingEntry { key, value }
    }
}

} // verus!
