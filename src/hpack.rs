//! HPACK field-block decoding (RFC 7541): prefixed integers, string
//! literals, the static and dynamic tables, and the representations that
//! make up a field block.
use crate::huffman::{huffman_decode, huffman_decoded};
use vstd::prelude::*;
use vstd::slice::slice_to_vec;
use vstd::string::StringSliceAdditionalSpecFns;

verus! {

/// Number of entries of the static table.
pub const STATIC_TABLE_LEN: usize = 61;

/// What each dynamic-table entry costs beyond its name and value.
pub const ENTRY_OVERHEAD: usize = 32;

/// A name and a value, as octets.
pub type Field = (Seq<u8>, Seq<u8>);

/// A decoded header field.
#[derive(Debug)]
pub struct HeaderField {
    pub name: Vec<u8>,
    pub value: Vec<u8>,
}

impl View for HeaderField {
    type V = Field;

    open spec fn view(&self) -> Field {
        (self.name@, self.value@)
    }
}

pub open spec fn fields_view(v: Seq<HeaderField>) -> Seq<Field> {
    v.map_values(|f: HeaderField| f@)
}

/// Entry `i` (from 1) of the static table of RFC 7541, name and value.
pub open spec fn static_entry_spec(i: int) -> (&'static str, &'static str) {
    if i == 1 {
        (":authority", "")
    } else if i == 2 {
        (":method", "GET")
    } else if i == 3 {
        (":method", "POST")
    } else if i == 4 {
        (":path", "/")
    } else if i == 5 {
        (":path", "/index.html")
    } else if i == 6 {
        (":scheme", "http")
    } else if i == 7 {
        (":scheme", "https")
    } else if i == 8 {
        (":status", "200")
    } else if i == 9 {
        (":status", "204")
    } else if i == 10 {
        (":status", "206")
    } else if i == 11 {
        (":status", "304")
    } else if i == 12 {
        (":status", "400")
    } else if i == 13 {
        (":status", "404")
    } else if i == 14 {
        (":status", "500")
    } else if i == 15 {
        ("accept-charset", "")
    } else if i == 16 {
        ("accept-encoding", "gzip, deflate")
    } else if i == 17 {
        ("accept-language", "")
    } else if i == 18 {
        ("accept-ranges", "")
    } else if i == 19 {
        ("accept", "")
    } else if i == 20 {
        ("access-control-allow-origin", "")
    } else if i == 21 {
        ("age", "")
    } else if i == 22 {
        ("allow", "")
    } else if i == 23 {
        ("authorization", "")
    } else if i == 24 {
        ("cache-control", "")
    } else if i == 25 {
        ("content-disposition", "")
    } else if i == 26 {
        ("content-encoding", "")
    } else if i == 27 {
        ("content-language", "")
    } else if i == 28 {
        ("content-length", "")
    } else if i == 29 {
        ("content-location", "")
    } else if i == 30 {
        ("content-range", "")
    } else if i == 31 {
        ("content-type", "")
    } else if i == 32 {
        ("cookie", "")
    } else if i == 33 {
        ("date", "")
    } else if i == 34 {
        ("etag", "")
    } else if i == 35 {
        ("expect", "")
    } else if i == 36 {
        ("expires", "")
    } else if i == 37 {
        ("from", "")
    } else if i == 38 {
        ("host", "")
    } else if i == 39 {
        ("if-match", "")
    } else if i == 40 {
        ("if-modified-since", "")
    } else if i == 41 {
        ("if-none-match", "")
    } else if i == 42 {
        ("if-range", "")
    } else if i == 43 {
        ("if-unmodified-since", "")
    } else if i == 44 {
        ("last-modified", "")
    } else if i == 45 {
        ("link", "")
    } else if i == 46 {
        ("location", "")
    } else if i == 47 {
        ("max-forwards", "")
    } else if i == 48 {
        ("proxy-authenticate", "")
    } else if i == 49 {
        ("proxy-authorization", "")
    } else if i == 50 {
        ("range", "")
    } else if i == 51 {
        ("referer", "")
    } else if i == 52 {
        ("refresh", "")
    } else if i == 53 {
        ("retry-after", "")
    } else if i == 54 {
        ("server", "")
    } else if i == 55 {
        ("set-cookie", "")
    } else if i == 56 {
        ("strict-transport-security", "")
    } else if i == 57 {
        ("transfer-encoding", "")
    } else if i == 58 {
        ("user-agent", "")
    } else if i == 59 {
        ("vary", "")
    } else if i == 60 {
        ("via", "")
    } else {
        ("www-authenticate", "")
    }
}

/// Entry `i` (from 1) of the static table.
pub fn static_entry(i: usize) -> (r: (&'static str, &'static str))
    requires
        1 <= i <= STATIC_TABLE_LEN,
    ensures
        r == static_entry_spec(i as int),
{
    match i {
        1 => (":authority", ""),
        2 => (":method", "GET"),
        3 => (":method", "POST"),
        4 => (":path", "/"),
        5 => (":path", "/index.html"),
        6 => (":scheme", "http"),
        7 => (":scheme", "https"),
        8 => (":status", "200"),
        9 => (":status", "204"),
        10 => (":status", "206"),
        11 => (":status", "304"),
        12 => (":status", "400"),
        13 => (":status", "404"),
        14 => (":status", "500"),
        15 => ("accept-charset", ""),
        16 => ("accept-encoding", "gzip, deflate"),
        17 => ("accept-language", ""),
        18 => ("accept-ranges", ""),
        19 => ("accept", ""),
        20 => ("access-control-allow-origin", ""),
        21 => ("age", ""),
        22 => ("allow", ""),
        23 => ("authorization", ""),
        24 => ("cache-control", ""),
        25 => ("content-disposition", ""),
        26 => ("content-encoding", ""),
        27 => ("content-language", ""),
        28 => ("content-length", ""),
        29 => ("content-location", ""),
        30 => ("content-range", ""),
        31 => ("content-type", ""),
        32 => ("cookie", ""),
        33 => ("date", ""),
        34 => ("etag", ""),
        35 => ("expect", ""),
        36 => ("expires", ""),
        37 => ("from", ""),
        38 => ("host", ""),
        39 => ("if-match", ""),
        40 => ("if-modified-since", ""),
        41 => ("if-none-match", ""),
        42 => ("if-range", ""),
        43 => ("if-unmodified-since", ""),
        44 => ("last-modified", ""),
        45 => ("link", ""),
        46 => ("location", ""),
        47 => ("max-forwards", ""),
        48 => ("proxy-authenticate", ""),
        49 => ("proxy-authorization", ""),
        50 => ("range", ""),
        51 => ("referer", ""),
        52 => ("refresh", ""),
        53 => ("retry-after", ""),
        54 => ("server", ""),
        55 => ("set-cookie", ""),
        56 => ("strict-transport-security", ""),
        57 => ("transfer-encoding", ""),
        58 => ("user-agent", ""),
        59 => ("vary", ""),
        60 => ("via", ""),
        _ => ("www-authenticate", ""),
    }
}

/// Entry `i` of the static table, as octets.
pub open spec fn static_field(i: int) -> Field {
    (static_entry_spec(i).0.spec_bytes(), static_entry_spec(i).1.spec_bytes())
}

/// What an entry counts for in the size of the dynamic table.
pub open spec fn entry_size(e: Field) -> nat {
    e.0.len() + e.1.len() + 32
}

/// Size of a dynamic table holding `es`.
pub open spec fn table_size(es: Seq<Field>) -> nat
    decreases es.len(),
{
    if es.len() == 0 {
        0
    } else {
        entry_size(es[0]) + table_size(es.drop_first())
    }
}

/// `es` with its oldest entries (at the front) dropped until it fits `max`.
pub open spec fn evicted(es: Seq<Field>, max: nat) -> Seq<Field>
    decreases es.len(),
{
    if es.len() == 0 || table_size(es) <= max {
        es
    } else {
        evicted(es.drop_first(), max)
    }
}

/// A dynamic table: entries oldest first, the size it may take now, and the
/// largest size a size update may set.
pub struct TableView {
    pub entries: Seq<Field>,
    pub max_size: nat,
    pub limit: nat,
}

impl TableView {
    pub open spec fn wf(self) -> bool {
        &&& self.max_size <= self.limit
        &&& self.limit <= u32::MAX
        &&& table_size(self.entries) <= self.max_size
    }

    /// The table once `f` is added as its newest entry.
    pub open spec fn inserted(self, f: Field) -> TableView {
        TableView { entries: evicted(self.entries.push(f), self.max_size), ..self }
    }

    /// The table once its size is set to `n`.
    pub open spec fn resized(self, n: nat) -> TableView {
        TableView { entries: evicted(self.entries, n), max_size: n, ..self }
    }

    /// The field index `i` names: the static table first, then the dynamic
    /// table, newest first.
    pub open spec fn lookup(self, i: int) -> Option<Field> {
        if 1 <= i <= 61 {
            Some(static_field(i))
        } else if 62 <= i < 62 + self.entries.len() {
            Some(self.entries[self.entries.len() - 1 - (i - 62)])
        } else {
            None
        }
    }
}

proof fn lemma_table_size_push(es: Seq<Field>, e: Field)
    ensures
        table_size(es.push(e)) == table_size(es) + entry_size(e),
    decreases es.len(),
{
    if es.len() > 0 {
        lemma_table_size_push(es.drop_first(), e);
        assert(es.push(e).drop_first() =~= es.drop_first().push(e));
        assert(es.push(e)[0] == es[0]);
    } else {
        assert(es.push(e).drop_first() =~= Seq::<Field>::empty());
        assert(table_size(Seq::<Field>::empty()) == 0);
        assert(es.push(e)[0] == e);
    }
}

proof fn lemma_evicted_fits(es: Seq<Field>, max: nat)
    ensures
        table_size(evicted(es, max)) <= max,
    decreases es.len(),
{
    if es.len() > 0 && table_size(es) > max {
        lemma_evicted_fits(es.drop_first(), max);
    }
}

/// A dynamic table.
pub struct DynamicTable {
    entries: Vec<HeaderField>,
    size: u64,
    max_size: u64,
    limit: u64,
}

impl View for DynamicTable {
    type V = TableView;

    closed spec fn view(&self) -> TableView {
        TableView {
            entries: fields_view(self.entries@),
            max_size: self.max_size as nat,
            limit: self.limit as nat,
        }
    }
}

impl DynamicTable {
    pub closed spec fn wf(&self) -> bool {
        &&& self@.wf()
        &&& self.size == table_size(self@.entries)
    }

    /// An empty table that size updates may grow up to `limit`.
    pub fn new(limit: u32) -> (r: DynamicTable)
        ensures
            r.wf(),
            r@ == (TableView { entries: Seq::empty(), max_size: limit as nat, limit: limit as nat }),
    {
        let r = DynamicTable {
            entries: Vec::new(),
            size: 0,
            max_size: limit as u64,
            limit: limit as u64,
        };
        assert(r@.entries =~= Seq::<Field>::empty());
        r
    }

    /// Drops the oldest entries until the table fits `max`.
    fn evict_to(&mut self, max: u64)
        requires
            old(self).size == table_size(old(self)@.entries),
        ensures
            final(self)@ == (TableView { entries: evicted(old(self)@.entries, max as nat), ..old(self)@ }),
            final(self).size == table_size(final(self)@.entries),
            final(self).max_size == old(self).max_size,
            final(self).limit == old(self).limit,
    {
        while self.size > max && self.entries.len() > 0
            invariant
                self.size == table_size(self@.entries),
                evicted(self@.entries, max as nat) == evicted(old(self)@.entries, max as nat),
                self.max_size == old(self).max_size,
                self.limit == old(self).limit,
            decreases self.entries.len(),
        {
            let ghost before = self@.entries;
            let e = self.entries.remove(0);
            proof {
                assert(self@.entries =~= before.drop_first());
                assert(before[0] == e@);
            }
            self.size = self.size - (e.name.len() as u64 + e.value.len() as u64 + 32);
        }
        proof {
            if self@.entries.len() == 0 {
                assert(evicted(self@.entries, max as nat) == self@.entries);
            }
        }
    }

    /// Adds `f` as the newest entry, evicting as needed.
    pub fn insert(&mut self, f: HeaderField)
        requires
            old(self).wf(),
        ensures
            final(self).wf(),
            final(self)@ == old(self)@.inserted(f@),
    {
        let ghost pre = self@;
        if f.name.len() as u64 > self.max_size || f.value.len() as u64 > self.max_size
            || f.name.len() as u64 + f.value.len() as u64 + 32 > self.max_size {
            proof {
                lemma_table_size_push(pre.entries, f@);
                lemma_evicted_all(pre.entries.push(f@), pre.max_size);
            }
            self.entries = Vec::new();
            self.size = 0;
            assert(self@.entries =~= Seq::<Field>::empty());
            return;
        }
        let esz = f.name.len() as u64 + f.value.len() as u64 + 32;
        proof {
            lemma_table_size_push(pre.entries, f@);
        }
        self.entries.push(f);
        self.size = self.size + esz;
        assert(self@.entries =~= pre.entries.push(f@));
        let m = self.max_size;
        self.evict_to(m);
        proof {
            lemma_evicted_fits(pre.entries.push(f@), pre.max_size);
        }
    }

    /// Sets the table's size to `n`, evicting as needed.
    pub fn resize(&mut self, n: u64)
        requires
            old(self).wf(),
            n <= old(self)@.limit,
        ensures
            final(self).wf(),
            final(self)@ == old(self)@.resized(n as nat),
    {
        self.evict_to(n);
        self.max_size = n;
        proof {
            lemma_evicted_fits(old(self)@.entries, n as nat);
        }
    }

    /// The largest size a size update may set.
    pub fn limit(&self) -> (r: u64)
        ensures
            r == self@.limit,
    {
        self.limit
    }

    /// The field index `i` names, if any.
    pub fn lookup(&self, i: u64) -> (r: Option<HeaderField>)
        requires
            self.wf(),
        ensures
            match r {
                Some(f) => self@.lookup(i as int) == Some(f@),
                None => self@.lookup(i as int) is None,
            },
    {
        if 1 <= i && i <= 61 {
            let (n, v) = static_entry(i as usize);
            Some(HeaderField { name: slice_to_vec(n.as_bytes()), value: slice_to_vec(v.as_bytes()) })
        } else if 62 <= i && i - 62 < self.entries.len() as u64 {
            let e = &self.entries[self.entries.len() - 1 - (i - 62) as usize];
            Some(HeaderField { name: e.name.clone(), value: e.value.clone() })
        } else {
            None
        }
    }
}


/// The continuation octets of a prefixed integer from `p` on: each adds its
/// low seven bits times `mul`; the first one below 128 ends it. At most `k`
/// octets are read.
pub open spec fn int_tail(s: Seq<u8>, p: int, acc: nat, mul: nat, k: nat) -> Option<(nat, int)>
    decreases k,
{
    if k == 0 || p < 0 || p >= s.len() {
        None
    } else {
        let acc2 = acc + (s[p] % 128) as nat * mul;
        if s[p] < 128 {
            Some((acc2, p + 1))
        } else {
            int_tail(s, p + 1, acc2, mul * 128, (k - 1) as nat)
        }
    }
}

/// The integer at `p` whose first octet keeps the low bits below
/// `prefix_max + 1` (a power of two), and where it ends. Integers with more
/// than five continuation octets are refused.
pub open spec fn hpack_int(s: Seq<u8>, p: int, prefix_max: nat) -> Option<(nat, int)> {
    if p < 0 || p >= s.len() {
        None
    } else if (s[p] as nat % (prefix_max + 1)) < prefix_max {
        Some((s[p] as nat % (prefix_max + 1), p + 1))
    } else {
        int_tail(s, p + 1, prefix_max, 1, 5)
    }
}

/// Reads a prefixed integer at `p`.
pub fn decode_int(s: &[u8], p: usize, prefix_max: u8) -> (r: Option<(u64, usize)>)
    requires
        prefix_max == 15 || prefix_max == 31 || prefix_max == 63 || prefix_max == 127,
    ensures
        match r {
            Some((v, q)) => hpack_int(s@, p as int, prefix_max as nat) == Some((v as nat, q as int)),
            None => hpack_int(s@, p as int, prefix_max as nat) is None,
        },
{
    if p >= s.len() {
        return None;
    }
    let first = s[p] % (prefix_max + 1);
    if first < prefix_max {
        return Some((first as u64, p + 1));
    }
    assert(hpack_int(s@, p as int, prefix_max as nat) == int_tail(s@, (p + 1) as int, prefix_max as nat, 1, 5));
    let mut acc: u64 = prefix_max as u64;
    let mut mul: u64 = 1;
    let mut k: u64 = 5;
    let mut q: usize = p + 1;
    while k > 0 && q < s.len()
        invariant
            q <= s@.len(),
            hpack_int(s@, p as int, prefix_max as nat) == int_tail(s@, (p + 1) as int, prefix_max as nat, 1, 5),
            int_tail(s@, (p + 1) as int, prefix_max as nat, 1, 5) == int_tail(s@, q as int, acc as nat, mul as nat, k as nat),
            (k == 5 && mul == 1) || (k == 4 && mul == 128) || (k == 3 && mul == 16384) || (k == 2
                && mul == 2097152) || (k == 1 && mul == 268435456) || (k == 0 && mul == 34359738368),
            acc < mul * 256,
        decreases k,
    {
        let b = s[q];
        let low = (b % 128) as u64;
        assert(low * mul <= 127 * mul) by (nonlinear_arith)
            requires
                low <= 127,
        ;
        let acc2 = acc + low * mul;
        if b < 128 {
            assert((s@[q as int] % 128) as nat * mul as nat == low * mul);
            assert(int_tail(s@, q as int, acc as nat, mul as nat, k as nat) == Some(((acc2 as nat, (q + 1) as int))));
            return Some((acc2, q + 1));
        }
        acc = acc2;
        mul = mul * 128;
        k = k - 1;
        q = q + 1;
    }
    None
}

/// The string literal at `p` (Huffman-coded when the first octet's top bit
/// is set), and where it ends.
pub open spec fn hpack_string(s: Seq<u8>, p: int) -> Option<(Seq<u8>, int)> {
    match hpack_int(s, p, 127) {
        None => None,
        Some((len, q)) => if q + len > s.len() {
            None
        } else if s[p] >= 128 {
            match huffman_decoded(s.subrange(q, q + len)) {
                Some(d) => Some((d, q + len)),
                None => None,
            }
        } else {
            Some((s.subrange(q, q + len), q + len))
        },
    }
}

/// Reads a string literal at `p`.
pub fn decode_string(s: &[u8], p: usize) -> (r: Option<(Vec<u8>, usize)>)
    ensures
        match r {
            Some((v, q)) => hpack_string(s@, p as int) == Some((v@, q as int)),
            None => hpack_string(s@, p as int) is None,
        },
{
    proof {
        lemma_int_advances(s@, p as int, 127);
    }
    let (len, q) = match decode_int(s, p, 127) {
        Some(x) => x,
        None => {
            return None;
        },
    };
    if len > (s.len() - q) as u64 {
        return None;
    }
    let end = q + len as usize;
    let raw = slice_subrange(s, q, end);
    if s[p] >= 128 {
        match huffman_decode(raw.as_slice()) {
            Some(d) => Some((d, end)),
            None => None,
        }
    } else {
        Some((raw, end))
    }
}

/// Copies out `s[a..b]`.
pub fn slice_subrange(s: &[u8], a: usize, b: usize) -> (r: Vec<u8>)
    requires
        a <= b <= s@.len(),
    ensures
        r@ == s@.subrange(a as int, b as int),
{
    let mut r: Vec<u8> = Vec::with_capacity(b - a);
    let mut i: usize = a;
    while i < b
        invariant
            a <= i <= b,
            b <= s@.len(),
            r@ == s@.subrange(a as int, i as int),
        decreases b - i,
    {
        r.push(s[i]);
        i = i + 1;
        assert(r@ =~= s@.subrange(a as int, i as int));
    }
    r
}

/// One representation of a field block.
pub enum Rep {
    /// A field, and whether it goes into the dynamic table.
    Field(Field, bool),
    /// A dynamic table size update.
    SizeUpdate(nat),
}

/// A literal representation at `p` whose index prefix keeps the bits below
/// `prefix_max + 1`.
pub open spec fn literal_rep(t: TableView, s: Seq<u8>, p: int, prefix_max: nat, index: bool) -> Option<(Rep, int)> {
    match hpack_int(s, p, prefix_max) {
        None => None,
        Some((i, q)) => {
            let name = if i == 0 {
                hpack_string(s, q)
            } else {
                match t.lookup(i as int) {
                    Some(f) => Some((f.0, q)),
                    None => None,
                }
            };
            match name {
                None => None,
                Some((n, q2)) => match hpack_string(s, q2) {
                    None => None,
                    Some((v, q3)) => Some((Rep::Field((n, v), index), q3)),
                },
            }
        },
    }
}

/// The representation at `p`, read against table `t`, and where it ends.
pub open spec fn parse_rep(t: TableView, s: Seq<u8>, p: int) -> Option<(Rep, int)> {
    if p < 0 || p >= s.len() {
        None
    } else if s[p] >= 128 {
        match hpack_int(s, p, 127) {
            Some((i, q)) => match t.lookup(i as int) {
                Some(f) => Some((Rep::Field(f, false), q)),
                None => None,
            },
            None => None,
        }
    } else if s[p] >= 64 {
        literal_rep(t, s, p, 63, true)
    } else if s[p] >= 32 {
        match hpack_int(s, p, 31) {
            Some((n, q)) => Some((Rep::SizeUpdate(n), q)),
            None => None,
        }
    } else {
        literal_rep(t, s, p, 15, false)
    }
}

/// Decoding the rest of block `s` from `p`, with table `t`, `acc` decoded so
/// far and `seen` telling whether a field came already: the fields and the
/// table after the block, or `None` for a decoding error. A size update
/// after a field, or above the table's limit, is an error.
pub open spec fn decode_from(t: TableView, s: Seq<u8>, p: int, seen: bool, acc: Seq<Field>) -> Option<(Seq<Field>, TableView)>
    decreases s.len() - p,
{
    if p < 0 {
        None
    } else if p >= s.len() {
        Some((acc, t))
    } else {
        match parse_rep(t, s, p) {
            None => None,
            Some((Rep::SizeUpdate(n), q)) => if seen || n > t.limit || q <= p || q > s.len() {
                None
            } else {
                decode_from(t.resized(n), s, q, seen, acc)
            },
            Some((Rep::Field(f, idx), q)) => if q <= p || q > s.len() {
                None
            } else {
                decode_from(if idx { t.inserted(f) } else { t }, s, q, true, acc.push(f))
            },
        }
    }
}

/// Decoding a whole field block against table `t`.
pub open spec fn decode_block_spec(t: TableView, s: Seq<u8>) -> Option<(Seq<Field>, TableView)> {
    decode_from(t, s, 0, false, Seq::empty())
}


/// A representation as decoded.
pub enum Decoded {
    Field(HeaderField, bool),
    SizeUpdate(u64),
}

impl View for Decoded {
    type V = Rep;

    open spec fn view(&self) -> Rep {
        match self {
            Decoded::Field(f, idx) => Rep::Field(f@, *idx),
            Decoded::SizeUpdate(n) => Rep::SizeUpdate(*n as nat),
        }
    }
}

/// Reads a literal representation at `p`.
fn decode_literal(t: &DynamicTable, s: &[u8], p: usize, prefix_max: u8, index: bool) -> (r: Option<(HeaderField, usize)>)
    requires
        t.wf(),
        prefix_max == 15 || prefix_max == 63,
    ensures
        match r {
            Some((f, q)) => literal_rep(t@, s@, p as int, prefix_max as nat, index) == Some((Rep::Field(f@, index), q as int)),
            None => literal_rep(t@, s@, p as int, prefix_max as nat, index) is None,
        },
{
    let (i, q) = match decode_int(s, p, prefix_max) {
        Some(x) => x,
        None => {
            return None;
        },
    };
    let (name, q2) = if i == 0 {
        match decode_string(s, q) {
            Some(x) => x,
            None => {
                return None;
            },
        }
    } else {
        match t.lookup(i) {
            Some(f) => (f.name, q),
            None => {
                return None;
            },
        }
    };
    match decode_string(s, q2) {
        Some((value, q3)) => Some((HeaderField { name, value }, q3)),
        None => None,
    }
}

/// Reads the representation at `p`.
pub fn decode_rep(t: &DynamicTable, s: &[u8], p: usize) -> (r: Option<(Decoded, usize)>)
    requires
        t.wf(),
    ensures
        match r {
            Some((d, q)) => parse_rep(t@, s@, p as int) == Some((d@, q as int)),
            None => parse_rep(t@, s@, p as int) is None,
        },
{
    if p >= s.len() {
        return None;
    }
    let b = s[p];
    if b >= 128 {
        match decode_int(s, p, 127) {
            Some((i, q)) => match t.lookup(i) {
                Some(f) => Some((Decoded::Field(f, false), q)),
                None => None,
            },
            None => None,
        }
    } else if b >= 64 {
        match decode_literal(t, s, p, 63, true) {
            Some((f, q)) => Some((Decoded::Field(f, true), q)),
            None => None,
        }
    } else if b >= 32 {
        match decode_int(s, p, 31) {
            Some((n, q)) => Some((Decoded::SizeUpdate(n), q)),
            None => None,
        }
    } else {
        match decode_literal(t, s, p, 15, false) {
            Some((f, q)) => Some((Decoded::Field(f, false), q)),
            None => None,
        }
    }
}

/// The receiving side of HPACK: a dynamic table that lives as long as the
/// connection.
pub struct Decoder {
    table: DynamicTable,
}

impl View for Decoder {
    type V = TableView;

    closed spec fn view(&self) -> TableView {
        self.table@
    }
}

impl Decoder {
    pub closed spec fn wf(&self) -> bool {
        self.table.wf()
    }

    /// A decoder whose table may hold up to `limit` octets.
    pub fn new(limit: u32) -> (r: Decoder)
        ensures
            r.wf(),
            r@.wf(),
            r@ == (TableView { entries: Seq::empty(), max_size: limit as nat, limit: limit as nat }),
    {
        Decoder { table: DynamicTable::new(limit) }
    }

    /// Decodes a whole field block, updating the dynamic table; `None` is a
    /// decoding error.
    pub fn decode(&mut self, block: &[u8]) -> (r: Option<Vec<HeaderField>>)
        requires
            old(self).wf(),
        ensures
            final(self).wf(),
            final(self)@.wf(),
            final(self)@.limit == old(self)@.limit,
            match r {
                Some(fs) => decode_block_spec(old(self)@, block@) == Some((fields_view(fs@), final(self)@)),
                None => decode_block_spec(old(self)@, block@) is None,
            },
    {
        let mut out: Vec<HeaderField> = Vec::new();
        let mut pos: usize = 0;
        let mut seen = false;
        assert(fields_view(out@) =~= Seq::<Field>::empty());
        while pos < block.len()
            invariant
                self.wf(),
                self@.limit == old(self)@.limit,
                pos <= block@.len(),
                decode_from(self@, block@, pos as int, seen, fields_view(out@)) == decode_block_spec(old(self)@, block@),
            decreases block@.len() - pos,
        {
            let (d, q) = match decode_rep(&self.table, block, pos) {
                Some(x) => x,
                None => {
                    return None;
                },
            };
            if q <= pos || q > block.len() {
                return None;
            }
            match d {
                Decoded::SizeUpdate(n) => {
                    if seen || n > self.table.limit() {
                        return None;
                    }
                    self.table.resize(n);
                },
                Decoded::Field(f, idx) => {
                    let ghost fv = f@;
                    let ghost before = out@;
                    if idx {
                        let copy = HeaderField { name: f.name.clone(), value: f.value.clone() };
                        self.table.insert(copy);
                    }
                    out.push(f);
                    seen = true;
                    assert(fields_view(out@) =~= fields_view(before).push(fv));
                },
            }
            pos = q;
        }
        Some(out)
    }
}


/// Continuation octets of an integer remainder `r`, low seven bits first.
pub open spec fn tail_bytes(r: nat) -> Seq<u8>
    decreases r,
{
    if r < 128 {
        seq![r as u8]
    } else {
        seq![(r % 128 + 128) as u8] + tail_bytes(r / 128)
    }
}

/// The prefixed integer `v`: the first octet carries `high` above a prefix
/// whose largest value is `prefix_max`.
pub open spec fn int_bytes(high: u8, prefix_max: nat, v: nat) -> Seq<u8> {
    if v < prefix_max {
        seq![(high + v) as u8]
    } else {
        seq![(high + prefix_max) as u8] + tail_bytes((v - prefix_max) as nat)
    }
}

/// A string literal, not Huffman-coded.
pub open spec fn string_bytes(s: Seq<u8>) -> Seq<u8> {
    int_bytes(0, 127, s.len()) + s
}

/// A field as a literal without indexing, with a literal name.
pub open spec fn field_bytes(f: Field) -> Seq<u8> {
    seq![0u8] + string_bytes(f.0) + string_bytes(f.1)
}

/// Fields one after the other.
pub open spec fn block_bytes(fs: Seq<Field>) -> Seq<u8>
    decreases fs.len(),
{
    if fs.len() == 0 {
        Seq::empty()
    } else {
        field_bytes(fs[0]) + block_bytes(fs.drop_first())
    }
}

/// Appends the continuation octets of `r`.
fn push_tail(out: &mut Vec<u8>, r: u64)
    ensures
        final(out)@ == old(out)@ + tail_bytes(r as nat),
    decreases r,
{
    if r < 128 {
        out.push(r as u8);
        assert(final(out)@ =~= old(out)@ + tail_bytes(r as nat));
    } else {
        out.push((r % 128 + 128) as u8);
        let ghost mid = out@;
        push_tail(out, r / 128);
        assert(out@ =~= old(out)@ + tail_bytes(r as nat));
    }
}

/// Appends the prefixed integer `v`.
pub fn encode_int(out: &mut Vec<u8>, high: u8, prefix_max: u8, v: u64)
    requires
        high as int + prefix_max as int <= 255,
        prefix_max >= 1,
    ensures
        final(out)@ == old(out)@ + int_bytes(high, prefix_max as nat, v as nat),
{
    if v < prefix_max as u64 {
        out.push(high + v as u8);
        assert(out@ =~= old(out)@ + int_bytes(high, prefix_max as nat, v as nat));
    } else {
        out.push(high + prefix_max);
        push_tail(out, v - prefix_max as u64);
        assert(out@ =~= old(out)@ + int_bytes(high, prefix_max as nat, v as nat));
    }
}

/// Appends `s` as a string literal.
pub fn encode_string(out: &mut Vec<u8>, s: &[u8])
    ensures
        final(out)@ == old(out)@ + string_bytes(s@),
{
    encode_int(out, 0, 127, s.len() as u64);
    let ghost mid = out@;
    let mut i: usize = 0;
    while i < s.len()
        invariant
            i <= s@.len(),
            out@ == mid + s@.subrange(0, i as int),
        decreases s@.len() - i,
    {
        out.push(s[i]);
        i = i + 1;
        assert(out@ =~= mid + s@.subrange(0, i as int));
    }
    assert(s@.subrange(0, i as int) =~= s@);
    assert(out@ =~= old(out)@ + string_bytes(s@));
}

/// Writes a field block that lists `fields` as literals without indexing:
/// it leaves the peer's dynamic table as it is.
pub fn encode_block(fields: &Vec<HeaderField>) -> (r: Vec<u8>)
    ensures
        r@ == block_bytes(fields_view(fields@)),
{
    let mut out: Vec<u8> = Vec::new();
    let mut i: usize = 0;
    let ghost fv = fields_view(fields@);
    assert(fv.subrange(0, fv.len() as int) =~= fv);
    assert(out@ + block_bytes(fv) =~= block_bytes(fv));
    while i < fields.len()
        invariant
            i <= fields@.len(),
            fv == fields_view(fields@),
            block_bytes(fv) == out@ + block_bytes(fv.subrange(i as int, fv.len() as int)),
        decreases fields@.len() - i,
    {
        let ghost before = out@;
        out.push(0);
        encode_string(&mut out, fields[i].name.as_slice());
        encode_string(&mut out, fields[i].value.as_slice());
        proof {
            let rest = fv.subrange(i as int, fv.len() as int);
            assert(rest[0] == fields@[i as int]@);
            assert(rest.drop_first() =~= fv.subrange(i + 1, fv.len() as int));
            assert(out@ =~= before + field_bytes(rest[0]));
        }
        i = i + 1;
    }
    assert(fv.subrange(i as int, fv.len() as int) =~= Seq::<Field>::empty());
    assert(out@ =~= out@ + Seq::<u8>::empty());
    out
}

/// 128 to the power `k`.
pub open spec fn pow128(k: nat) -> nat
    decreases k,
{
    if k == 0 {
        1
    } else {
        128 * pow128((k - 1) as nat)
    }
}

proof fn lemma_tail_len(r: nat, k: nat)
    requires
        k >= 1,
        r < pow128(k),
    ensures
        1 <= tail_bytes(r).len() <= k,
    decreases r,
{
    if r >= 128 {
        assert(k >= 2) by {
            if k < 2 {
                if k == 0 {
                    assert(pow128(0) == 1);
                } else {
                    assert(pow128(1) == 128 * pow128(0));
                }
            }
        }
        assert(r / 128 < pow128((k - 1) as nat)) by (nonlinear_arith)
            requires
                r < pow128(k),
                pow128(k) == 128 * pow128((k - 1) as nat),
        ;
        lemma_tail_len(r / 128, (k - 1) as nat);
    }
}

/// Continuation octets read back as the remainder they were written from.
proof fn lemma_tail_round_trip(s: Seq<u8>, p: int, acc: nat, mul: nat, k: nat, r: nat)
    requires
        0 <= p,
        p + tail_bytes(r).len() <= s.len(),
        s.subrange(p, p + tail_bytes(r).len()) == tail_bytes(r),
        k >= 1,
        r < pow128(k),
    ensures
        int_tail(s, p, acc, mul, k) == Some((acc + r * mul, p + tail_bytes(r).len())),
    decreases r,
{
    lemma_tail_len(r, k);
    assert(s[p] == tail_bytes(r)[0]);
    if r >= 128 {
        let t = tail_bytes(r / 128);
        assert(tail_bytes(r) == seq![(r % 128 + 128) as u8] + t);
        assert(s.subrange(p + 1, p + 1 + t.len()) =~= t) by {
            assert forall|j: int| 0 <= j < t.len() implies s.subrange(p + 1, p + 1 + t.len())[j] == t[j] by {
                assert(s.subrange(p, p + tail_bytes(r).len())[j + 1] == tail_bytes(r)[j + 1]);
            }
        }
        assert(r / 128 < pow128((k - 1) as nat)) by (nonlinear_arith)
            requires
                r < pow128(k),
                k >= 1,
                pow128(k) == 128 * pow128((k - 1) as nat),
        ;
        lemma_tail_round_trip(s, p + 1, acc + (r % 128) * mul, mul * 128, (k - 1) as nat, r / 128);
        assert(acc + (r % 128) * mul + (r / 128) * (mul * 128) == acc + r * mul) by (nonlinear_arith);
        assert(((r % 128 + 128) as u8) % 128 == r % 128);
    }
}

/// A prefixed integer read back as the number it was written from.
pub proof fn lemma_int_round_trip(s: Seq<u8>, p: int, high: u8, prefix_max: nat, v: nat)
    requires
        0 <= p,
        prefix_max == 15 || prefix_max == 31 || prefix_max == 63 || prefix_max == 127,
        high as nat % (prefix_max + 1) == 0,
        high + prefix_max <= 255,
        v <= u32::MAX,
        p + int_bytes(high, prefix_max, v).len() <= s.len(),
        s.subrange(p, p + int_bytes(high, prefix_max, v).len()) == int_bytes(high, prefix_max, v),
    ensures
        hpack_int(s, p, prefix_max) == Some((v, p + int_bytes(high, prefix_max, v).len())),
{
    let b = int_bytes(high, prefix_max, v);
    assert(s[p] == b[0]);
    if v < prefix_max {
        assert((high as nat + v) % (prefix_max + 1) == v) by (nonlinear_arith)
            requires
                high as nat % (prefix_max + 1) == 0,
                v < prefix_max,
        ;
    } else {
        assert((high as nat + prefix_max) % (prefix_max + 1) == prefix_max) by (nonlinear_arith)
            requires
                high as nat % (prefix_max + 1) == 0,
        ;
        let r = (v - prefix_max) as nat;
        let t = tail_bytes(r);
        assert(pow128(5) == 34359738368) by {
            reveal_with_fuel(pow128, 6);
        }
        assert(s.subrange(p + 1, p + 1 + t.len()) =~= t) by {
            assert forall|j: int| 0 <= j < t.len() implies s.subrange(p + 1, p + 1 + t.len())[j] == t[j] by {
                assert(s.subrange(p, p + b.len())[j + 1] == b[j + 1]);
            }
        }
        lemma_tail_round_trip(s, p + 1, prefix_max, 1, 5, r);
    }
}


/// Splitting what a range holds at a seam.
proof fn lemma_split_range(s: Seq<u8>, p: int, a: Seq<u8>, b: Seq<u8>)
    requires
        0 <= p,
        p + a.len() + b.len() <= s.len(),
        s.subrange(p, p + a.len() + b.len()) == a + b,
    ensures
        s.subrange(p, p + a.len()) == a,
        s.subrange(p + a.len(), p + a.len() + b.len()) == b,
{
    assert forall|j: int| 0 <= j < a.len() implies s.subrange(p, p + a.len())[j] == a[j] by {
        assert(s.subrange(p, p + a.len() + b.len())[j] == (a + b)[j]);
    }
    assert forall|j: int| 0 <= j < b.len() implies s.subrange(p + a.len(), p + a.len() + b.len())[j] == b[j] by {
        assert(s.subrange(p, p + a.len() + b.len())[a.len() + j] == (a + b)[a.len() + j]);
        assert((a + b)[a.len() + j] == b[j]);
        assert(s.subrange(p, p + a.len() + b.len())[a.len() + j] == s[p + a.len() + j]);
        assert(s.subrange(p + a.len(), p + a.len() + b.len())[j] == s[p + a.len() + j]);
    }
    assert(s.subrange(p, p + a.len()) =~= a);
    assert(s.subrange(p + a.len(), p + a.len() + b.len()) =~= b);
}

/// A string literal read back as the octets it was written from.
proof fn lemma_string_round_trip(s: Seq<u8>, p: int, x: Seq<u8>)
    requires
        0 <= p,
        x.len() <= u32::MAX,
        p + string_bytes(x).len() <= s.len(),
        s.subrange(p, p + string_bytes(x).len()) == string_bytes(x),
    ensures
        hpack_string(s, p) == Some((x, p + string_bytes(x).len())),
{
    let ib = int_bytes(0, 127, x.len());
    lemma_split_range(s, p, ib, x);
    lemma_int_round_trip(s, p, 0, 127, x.len());
    assert(s[p] == s.subrange(p, p + ib.len())[0]);
    assert(s[p] == ib[0]);
}

/// Every name and value fits the integers HPACK writes here.
pub open spec fn fields_fit(fs: Seq<Field>) -> bool {
    forall|k: int| 0 <= k < fs.len() ==> (#[trigger] fs[k]).0.len() <= u32::MAX && fs[k].1.len() <= u32::MAX
}

proof fn lemma_block_decodes(t: TableView, s: Seq<u8>, p: int, seen: bool, acc: Seq<Field>, fs: Seq<Field>)
    requires
        0 <= p <= s.len(),
        fields_fit(fs),
        s.subrange(p, s.len() as int) == block_bytes(fs),
    ensures
        decode_from(t, s, p, seen, acc) == Some((acc + fs, t)),
    decreases fs.len(),
{
    if fs.len() == 0 {
        assert(acc + fs =~= acc);
    } else {
        let f = fs[0];
        let nb = string_bytes(f.0);
        let vb = string_bytes(f.1);
        let rest = block_bytes(fs.drop_first());
        assert(block_bytes(fs) == seq![0u8] + nb + vb + rest);
        assert(seq![0u8] + nb + vb + rest =~= seq![0u8] + (nb + (vb + rest)));
        let q1 = p + 1;
        let q2 = q1 + nb.len();
        let q3 = q2 + vb.len();
        lemma_split_range(s, p, seq![0u8], nb + (vb + rest));
        lemma_split_range(s, q1, nb, vb + rest);
        lemma_split_range(s, q2, vb, rest);
        assert(s[p] == 0) by {
            assert(s.subrange(p, p + 1)[0] == s[p]);
        }
        let b0 = s[p];
        assert(b0 as nat % 16 == 0) by (nonlinear_arith)
            requires
                b0 == 0u8,
        ;
        assert(hpack_int(s, p, 15) == Some((0nat, q1)));
        lemma_string_round_trip(s, q1, f.0);
        lemma_string_round_trip(s, q2, f.1);
        assert(literal_rep(t, s, p, 15, false) == Some((Rep::Field(f, false), q3)));
        assert(parse_rep(t, s, p) == Some((Rep::Field(f, false), q3)));
        assert(s.subrange(q3, s.len() as int) == rest) by {
            assert(s.subrange(q2, s.len() as int) =~= vb + rest);
            assert(s.subrange(q3, s.len() as int) =~= s.subrange(q2, s.len() as int).subrange(vb.len() as int, (vb + rest).len() as int));
            assert((vb + rest).subrange(vb.len() as int, (vb + rest).len() as int) =~= rest);
        }
        assert(fields_fit(fs.drop_first())) by {
            assert forall|k: int| 0 <= k < fs.drop_first().len() implies (#[trigger] fs.drop_first()[k]).0.len() <= u32::MAX && fs.drop_first()[k].1.len() <= u32::MAX by {
                assert(fs.drop_first()[k] == fs[k + 1]);
            }
        }
        lemma_block_decodes(t, s, q3, true, acc.push(f), fs.drop_first());
        assert(acc.push(f) + fs.drop_first() =~= acc + fs);
    }
}


/// The sending side of HPACK. It never adds entries to the peer's dynamic
/// table; it keeps the table size it uses and, when the peer lowers its
/// limit, announces the new size at the start of the next block.
pub struct Encoder {
    max_size: u32,
    update: Option<u32>,
}

impl Encoder {
    pub closed spec fn max_size(&self) -> nat {
        self.max_size as nat
    }

    pub closed spec fn pending_update(&self) -> Option<u32> {
        self.update
    }

    pub fn new() -> (r: Encoder)
        ensures
            r.max_size() == 4096,
            r.pending_update() is None,
    {
        Encoder { max_size: 4096, update: None }
    }

    /// The peer's SETTINGS_HEADER_TABLE_SIZE is now `n`.
    pub fn set_limit(&mut self, n: u32)
        ensures
            n < old(self).max_size() ==> final(self).max_size() == n && final(self).pending_update() == Some(n),
            n >= old(self).max_size() ==> final(self).max_size() == old(self).max_size()
                && final(self).pending_update() == old(self).pending_update(),
    {
        if n < self.max_size {
            self.max_size = n;
            self.update = Some(n);
        }
    }

    /// A field block for `fields`, led by the pending size update if any.
    pub fn encode(&mut self, fields: &Vec<HeaderField>) -> (r: Vec<u8>)
        ensures
            final(self).max_size() == old(self).max_size(),
            final(self).pending_update() is None,
            r@ == (match old(self).pending_update() {
                Some(n) => int_bytes(32, 31, n as nat),
                None => Seq::empty(),
            }) + block_bytes(fields_view(fields@)),
    {
        let mut out: Vec<u8> = Vec::new();
        if let Some(n) = self.update {
            encode_int(&mut out, 32, 31, n as u64);
        }
        self.update = None;
        let mut block = encode_block(fields);
        let ghost head = out@;
        out.append(&mut block);
        assert(out@ =~= head + block_bytes(fields_view(fields@)));
        out
    }
}

/// A block written by `encode_block` decodes, against any table, to the
/// fields it was written from, and leaves the table as it was.
pub proof fn lemma_encode_decode_round_trip(t: TableView, fs: Seq<Field>)
    requires
        fields_fit(fs),
    ensures
        decode_block_spec(t, block_bytes(fs)) == Some((fs, t)),
{
    let s = block_bytes(fs);
    assert(s.subrange(0, s.len() as int) =~= s);
    lemma_block_decodes(t, s, 0, false, Seq::empty(), fs);
    assert(Seq::<Field>::empty() + fs =~= fs);
}

/// Where an integer ends it has moved past `p`.
proof fn lemma_int_advances(s: Seq<u8>, p: int, prefix_max: nat)
    ensures
        hpack_int(s, p, prefix_max) matches Some((v, q)) ==> p < q <= s.len(),
{
    if 0 <= p < s.len() && (s[p] as nat % (prefix_max + 1)) >= prefix_max {
        lemma_tail_advances(s, p + 1, prefix_max, 1, 5);
    }
}

proof fn lemma_tail_advances(s: Seq<u8>, p: int, acc: nat, mul: nat, k: nat)
    ensures
        int_tail(s, p, acc, mul, k) matches Some((v, q)) ==> p < q <= s.len(),
    decreases k,
{
    if k > 0 && 0 <= p < s.len() && s[p] >= 128 {
        lemma_tail_advances(s, p + 1, acc + (s[p] % 128) as nat * mul, mul * 128, (k - 1) as nat);
    }
}

/// An entry larger than the table empties it.
proof fn lemma_evicted_all(es: Seq<Field>, max: nat)
    requires
        es.len() > 0,
        entry_size(es.last()) > max,
    ensures
        evicted(es, max) == Seq::<Field>::empty(),
    decreases es.len(),
{
    if es.len() == 1 {
        assert(es.drop_first() =~= Seq::<Field>::empty());
        assert(table_size(Seq::<Field>::empty()) == 0);
        assert(table_size(es) == entry_size(es[0]));
        assert(evicted(es.drop_first(), max) == es.drop_first());
    } else {
        lemma_table_size_ge_last(es);
        assert(es.drop_first().last() == es.last());
        lemma_evicted_all(es.drop_first(), max);
    }
}

proof fn lemma_table_size_ge_last(es: Seq<Field>)
    requires
        es.len() > 0,
    ensures
        table_size(es) >= entry_size(es.last()),
    decreases es.len(),
{
    if es.len() > 1 {
        lemma_table_size_ge_last(es.drop_first());
        assert(es.drop_first().last() == es.last());
    }
}

} // verus!
