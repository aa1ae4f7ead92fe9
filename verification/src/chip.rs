//! Microchip data model: ports on the chip boundary, chip metadata carried
//! in the item's NBT, and the circuit data kept in server storage.
//!
//! The metadata travels inside the item NBT as a JSON string under the
//! `YogVlsiChip` key; the JSON text itself is produced and read by the
//! application, this module frames it into SNBT and takes it back out.

use vstd::prelude::*;

use crate::text::{
    chars_of, find_exec, find_from, occurs_at, replace_char, replace_char_exec, replace_pair,
    replace_pair_exec, string_of,
};
use crate::vm::Tier;

verus! {

broadcast use vstd::string::group_string_axioms;

// ── Chip ID ───────────────────────────────────────────────────────────────────

/// Unique chip identifier (UUID v4 as string).
pub type ChipId = String;

/// A lower-case hexadecimal digit.
pub open spec fn is_hex_lower(c: char) -> bool {
    ('0' <= c && c <= '9') || ('a' <= c && c <= 'f')
}

/// The text of a random (version 4, RFC 4122 variant) UUID in hyphenated
/// lower-case form: 8-4-4-4-12 hex digits, the version digit `4`, the
/// variant digit one of `8`, `9`, `a`, `b`.
pub open spec fn uuid_v4_text(s: Seq<char>) -> bool {
    &&& s.len() == 36
    &&& s[8] == '-' && s[13] == '-' && s[18] == '-' && s[23] == '-'
    &&& forall|i: int|
        0 <= i < 36 && i != 8 && i != 13 && i != 18 && i != 23 ==> is_hex_lower(#[trigger] s[i])
    &&& s[14] == '4'
    &&& s[19] == '8' || s[19] == '9' || s[19] == 'a' || s[19] == 'b'
}

/// A new chip identifier: `uuid::Uuid::new_v4()` written out by its
/// `Display`. Claims only the textual form of a random UUID; which UUID
/// comes out is left open, as it rests on the random number source.
#[verifier::external_body]
pub fn new_chip_id() -> (r: ChipId)
    ensures
        uuid_v4_text(r@),
{
    uuid::Uuid::new_v4().to_string()
}

// ── Port definitions ──────────────────────────────────────────────────────────

/// Which edge of the chip a port sits on.
#[derive(Debug, Clone, Copy, PartialEq, Eq)]
pub enum PortSide {
    North,
    South,
    East,
    West,
}

impl PortSide {
    pub open spec fn spec_name(self) -> Seq<char> {
        match self {
            PortSide::North => "North"@,
            PortSide::South => "South"@,
            PortSide::East => "East"@,
            PortSide::West => "West"@,
        }
    }

    pub fn name(self) -> (r: &'static str)
        ensures
            r@ == self.spec_name(),
    {
        match self {
            PortSide::North => "North",
            PortSide::South => "South",
            PortSide::East => "East",
            PortSide::West => "West",
        }
    }
}

/// I/O direction for a port.
#[derive(Debug, Clone, Copy, PartialEq, Eq)]
pub enum PortDir {
    Input,
    Output,
    Bidirectional,
}

impl PortDir {
    pub open spec fn spec_name(self) -> Seq<char> {
        match self {
            PortDir::Input => "IN"@,
            PortDir::Output => "OUT"@,
            PortDir::Bidirectional => "BIDI"@,
        }
    }

    pub fn name(self) -> (r: &'static str)
        ensures
            r@ == self.spec_name(),
    {
        match self {
            PortDir::Input => "IN",
            PortDir::Output => "OUT",
            PortDir::Bidirectional => "BIDI",
        }
    }
}

/// A single I/O port on the chip boundary.
#[derive(Debug, Clone)]
pub struct Port {
    /// Display label (e.g. "A0", "CLK", "Q")
    pub label: String,
    /// Which edge of the chip
    pub side: PortSide,
    /// Position along the edge (0-based index within the world size)
    pub index: u32,
    /// I/O direction
    pub dir: PortDir,
}

// ── Chip metadata (item NBT) ──────────────────────────────────────────────────

/// Chip metadata stored in the item's NBT.
#[derive(Debug, Clone)]
pub struct ChipMeta {
    /// Unique chip ID (references circuit data in server storage).
    pub id: ChipId,
    /// Microchip tier.
    pub tier: Tier,
    /// User-assigned name.
    pub name: String,
    /// I/O port list.
    pub ports: Vec<Port>,
}

// ── Circuit data (server storage) ─────────────────────────────────────────────

/// A single block in the virtual circuit world.
#[derive(Debug, Clone)]
pub struct CircuitBlock {
    pub x: u32,
    pub y: u32,
    pub z: u32,
    /// Minecraft block ID (e.g. "minecraft:redstone_wire")
    pub block_id: String,
    /// JSON-encoded block state properties (e.g. `{"power":"0","north":"none",...}`)
    pub state_json: String,
}

/// Full circuit data for a chip, kept in server storage.
#[derive(Debug, Clone)]
pub struct CircuitData {
    /// Chip ID this data belongs to.
    pub chip_id: ChipId,
    /// Virtual world dimensions (matches tier).
    pub width: u32,
    pub height: u32,
    /// Placed blocks in the virtual world.
    pub blocks: Vec<CircuitBlock>,
    /// Port definitions (also in ChipMeta, duplicated here for self-containment).
    pub ports: Vec<Port>,
}

impl CircuitData {
    /// A circuit with no blocks placed.
    pub fn new(chip_id: ChipId, width: u32, height: u32, ports: Vec<Port>) -> (c: CircuitData)
        ensures
            c.chip_id@ == chip_id@,
            c.width == width,
            c.height == height,
            c.blocks@.len() == 0,
            c.ports@ == ports@,
    {
        CircuitData { chip_id, width, height, blocks: Vec::new(), ports }
    }
}

// ── SNBT framing ──────────────────────────────────────────────────────────────

/// Escape for an SNBT string: backslashes doubled, then quotes backslashed.
pub open spec fn snbt_escape(s: Seq<char>) -> Seq<char> {
    replace_char(replace_char(s, '\\', seq!['\\', '\\']), '"', seq!['\\', '"'])
}

/// Undo the escaping: backslashed quotes first, then doubled backslashes.
pub open spec fn snbt_unescape(s: Seq<char>) -> Seq<char> {
    replace_pair(replace_pair(s, '\\', '"', '"'), '\\', '\\', '\\')
}

/// Position of the first quote in t not escaped by a backslash (a backslash
/// skips the character after it).
pub open spec fn closing_quote(t: Seq<char>) -> Option<int>
    decreases t.len(),
{
    if t.len() == 0 {
        None
    } else if t[0] == '\\' && t.len() >= 2 {
        match closing_quote(t.skip(2)) {
            Some(e) => Some(e + 2),
            None => None,
        }
    } else if t[0] == '"' {
        Some(0)
    } else {
        match closing_quote(t.skip(1)) {
            Some(e) => Some(e + 1),
            None => None,
        }
    }
}

/// `{<tag>: "<escaped payload>"}`.
pub open spec fn snbt_frame(tag: Seq<char>, payload: Seq<char>) -> Seq<char> {
    seq!['{'] + tag + seq![':', ' ', '"'] + snbt_escape(payload) + seq!['"', '}']
}

/// The payload of the first `<tag>:"..."` entry in nbt, up to its closing
/// quote (empty when it has none) and unescaped; `None` without such entry.
pub open spec fn snbt_unframe(tag: Seq<char>, nbt: Seq<char>) -> Option<Seq<char>> {
    let key = tag + seq![':', '"'];
    match find_from(nbt, key, 0) {
        None => None,
        Some(p) => {
            let t = nbt.skip(p + key.len());
            let end = match closing_quote(t) {
                Some(e) => e,
                None => 0,
            };
            Some(snbt_unescape(t.take(end)))
        },
    }
}

pub proof fn lemma_closing_quote_bounds(t: Seq<char>)
    ensures
        match closing_quote(t) {
            Some(e) => 0 <= e < t.len() && t[e] == '"',
            None => true,
        },
    decreases t.len(),
{
    if t.len() == 0 {
    } else if t[0] == '\\' && t.len() >= 2 {
        lemma_closing_quote_bounds(t.skip(2));
    } else if t[0] == '"' {
    } else {
        lemma_closing_quote_bounds(t.skip(1));
    }
}

fn closing_quote_exec(v: &Vec<char>, start: usize) -> (r: Option<usize>)
    requires
        start <= v@.len(),
    ensures
        match closing_quote(v@.skip(start as int)) {
            Some(e) => r == Some((start + e) as usize),
            None => r is None,
        },
{
    let n = v.len();
    let mut i = start;
    proof {
        lemma_closing_quote_bounds(v@.skip(start as int));
    }
    while i < n
        invariant
            start <= i <= n,
            n == v@.len(),
            match closing_quote(v@.skip(start as int)) {
                Some(e) => i <= start + e && closing_quote(v@.skip(i as int)) == Some(start + e - i),
                None => closing_quote(v@.skip(i as int)) is None,
            },
        decreases n + 1 - i,
    {
        let ghost t = v@.skip(i as int);
        proof {
            lemma_closing_quote_bounds(t);
            lemma_closing_quote_bounds(t.skip(1));
            lemma_closing_quote_bounds(t.skip(2));
        }
        if v[i] == '\\' && i + 1 < n {
            assert(t.skip(2) == v@.skip(i + 2));
            assert(t[0] == '\\' && t.len() >= 2);
            assert(closing_quote(t) == match closing_quote(t.skip(2)) {
                Some(e) => Some(e + 2),
                None => None,
            });
            i += 2;
        } else if v[i] == '"' {
            return Some(i);
        } else {
            assert(t.skip(1) == v@.skip(i + 1));
            assert(!(t[0] == '\\' && t.len() >= 2) && t[0] != '"');
            assert(closing_quote(t) == match closing_quote(t.skip(1)) {
                Some(e) => Some(e + 1),
                None => None,
            });
            i += 1;
        }
    }
    assert(v@.skip(i as int).len() == 0);
    None
}

/// Frame `payload` under `tag` as an SNBT compound with one string entry,
/// with a space after the colon when `spaced`.
pub fn snbt_frame_exec(tag: &str, payload: &str, spaced: bool) -> (r: String)
    ensures
        r@ == if spaced {
            snbt_frame(tag@, payload@)
        } else {
            snbt_stored(tag@, payload@)
        },
{
    let p = chars_of(payload);
    let bs = vec!['\\', '\\'];
    let q = vec!['\\', '"'];
    let e1 = replace_char_exec(&p, '\\', &bs);
    let e2 = replace_char_exec(&e1, '"', &q);
    let mut out: Vec<char> = Vec::new();
    out.push('{');
    let t = chars_of(tag);
    let mut i: usize = 0;
    while i < t.len()
        invariant
            i <= t@.len(),
            out@ == seq!['{'] + t@.take(i as int),
        decreases t@.len() - i,
    {
        out.push(t[i]);
        assert(t@.take(i + 1) == t@.take(i as int).push(t@[i as int]));
        i += 1;
    }
    assert(t@.take(t@.len() as int) == t@);
    out.push(':');
    if spaced {
        out.push(' ');
    }
    out.push('"');
    let mut j: usize = 0;
    let ghost head = out@;
    while j < e2.len()
        invariant
            j <= e2@.len(),
            out@ == head + e2@.take(j as int),
        decreases e2@.len() - j,
    {
        out.push(e2[j]);
        assert(e2@.take(j + 1) == e2@.take(j as int).push(e2@[j as int]));
        j += 1;
    }
    assert(e2@.take(e2@.len() as int) == e2@);
    out.push('"');
    out.push('}');
    string_of(&out)
}

/// Take the payload of the `tag` entry back out of an SNBT string.
pub fn snbt_unframe_exec(tag: &str, nbt: &str) -> (r: Option<String>)
    ensures
        match snbt_unframe(tag@, nbt@) {
            Some(p) => r is Some && r->0@ == p,
            None => r is None,
        },
{
    let v = chars_of(nbt);
    let mut key = chars_of(tag);
    key.push(':');
    key.push('"');
    assert(key@ == tag@ + seq![':', '"']);
    let vlen = v.len();
    match find_exec(&v, &key, 0) {
        None => None,
        Some(p) => {
            proof {
                crate::text::lemma_find_from_found(v@, key@, 0);
                assert(find_from(v@, key@, 0) == Some(p as int));
                assert(occurs_at(v@, key@, p as int));
                assert(p + key@.len() <= vlen);
                lemma_closing_quote_bounds(v@.skip(p + key@.len()));
            }
            let start = p + key.len();
            let end_rel = match closing_quote_exec(&v, start) {
                Some(e) => e - start,
                None => 0,
            };
            let mut body: Vec<char> = Vec::new();
            let mut i: usize = 0;
            let n = v.len();
            let ghost t = v@.skip(start as int);
            while i < end_rel
                invariant
                    i <= end_rel,
                    start + end_rel <= n,
                    n == v@.len(),
                    t == v@.skip(start as int),
                    body@ == t.take(i as int),
                decreases end_rel - i,
            {
                body.push(v[start + i]);
                assert(t.take(i + 1) == t.take(i as int).push(t[i as int]));
                i += 1;
            }
            let u1 = replace_pair_exec(&body, '\\', '"', '"');
            let u2 = replace_pair_exec(&u1, '\\', '\\', '\\');
            Some(string_of(&u2))
        },
    }
}


// ── Escaping, one character at a time ────────────────────────────────────────

/// What escaping makes of one character.
pub open spec fn escape_char(c: char) -> Seq<char> {
    if c == '\\' {
        seq!['\\', '\\']
    } else if c == '"' {
        seq!['\\', '"']
    } else {
        seq![c]
    }
}

/// Escaping applied character by character.
pub open spec fn escape_each(s: Seq<char>) -> Seq<char>
    decreases s.len(),
{
    if s.len() == 0 {
        Seq::empty()
    } else {
        escape_char(s[0]) + escape_each(s.skip(1))
    }
}

/// The text after the first unescaping pass: backslashes still doubled.
pub open spec fn backslashes_doubled(s: Seq<char>) -> Seq<char>
    decreases s.len(),
{
    if s.len() == 0 {
        Seq::empty()
    } else {
        (if s[0] == '\\' {
            seq!['\\', '\\']
        } else {
            seq![s[0]]
        }) + backslashes_doubled(s.skip(1))
    }
}

/// `{<tag>:"<escaped payload>"}`: a framed entry as the game hands it back,
/// with no space after the colon.
pub open spec fn snbt_stored(tag: Seq<char>, payload: Seq<char>) -> Seq<char> {
    seq!['{'] + tag + seq![':', '"'] + snbt_escape(payload) + seq!['"', '}']
}

proof fn lemma_replace_char_concat(a: Seq<char>, b: Seq<char>, c: char, r: Seq<char>)
    ensures
        replace_char(a + b, c, r) == replace_char(a, c, r) + replace_char(b, c, r),
    decreases a.len(),
{
    if a.len() == 0 {
        assert(a + b == b);
    } else {
        lemma_replace_char_concat(a.skip(1), b, c, r);
        assert((a + b).skip(1) == a.skip(1) + b);
        assert((a + b)[0] == a[0]);
        let x = if a[0] == c {
            r
        } else {
            seq![a[0]]
        };
        assert(replace_char(a + b, c, r) == x + replace_char(a.skip(1) + b, c, r));
        assert(replace_char(a, c, r) == x + replace_char(a.skip(1), c, r));
        assert(x + (replace_char(a.skip(1), c, r) + replace_char(b, c, r)) == (x + replace_char(
            a.skip(1),
            c,
            r,
        )) + replace_char(b, c, r));
    }
}

proof fn lemma_escape_is_each(s: Seq<char>)
    ensures
        snbt_escape(s) == escape_each(s),
    decreases s.len(),
{
    if s.len() > 0 {
        let bs = seq!['\\', '\\'];
        let q = seq!['\\', '"'];
        let x0 = if s[0] == '\\' {
            bs
        } else {
            seq![s[0]]
        };
        let rest = replace_char(s.skip(1), '\\', bs);
        assert(replace_char(s, '\\', bs) == x0 + rest);
        lemma_replace_char_concat(x0, rest, '"', q);
        lemma_escape_is_each(s.skip(1));
        if s[0] == '\\' {
            assert(bs.skip(1) == seq!['\\']);
            assert(bs.skip(1).skip(1) == Seq::<char>::empty());
            assert(replace_char(seq!['\\'], '"', q) == seq!['\\'] + replace_char(
                Seq::<char>::empty(),
                '"',
                q,
            ));
            assert(replace_char(bs, '"', q) == seq!['\\'] + replace_char(bs.skip(1), '"', q));
            assert(replace_char(x0, '"', q) == bs);
        } else {
            assert(x0.skip(1) == Seq::<char>::empty());
            assert(replace_char(x0, '"', q) == escape_char(s[0]) + replace_char(
                x0.skip(1),
                '"',
                q,
            ));
            assert(replace_char(x0, '"', q) == escape_char(s[0]));
        }
    }
}

proof fn lemma_escape_each_head(s: Seq<char>)
    ensures
        escape_each(s).len() >= s.len(),
        escape_each(s).len() > 0 ==> escape_each(s)[0] != '"',
    decreases s.len(),
{
    if s.len() > 0 {
        lemma_escape_each_head(s.skip(1));
    }
}

proof fn lemma_closing_quote_escaped(s: Seq<char>, tail: Seq<char>)
    ensures
        closing_quote(escape_each(s) + seq!['"'] + tail) == Some(escape_each(s).len() as int),
    decreases s.len(),
{
    let t = escape_each(s) + seq!['"'] + tail;
    if s.len() == 0 {
        assert(t[0] == '"');
    } else {
        lemma_closing_quote_escaped(s.skip(1), tail);
        let e = escape_char(s[0]);
        let rest = escape_each(s.skip(1));
        assert(escape_each(s) == e + rest);
        if s[0] == '\\' || s[0] == '"' {
            assert(t.skip(2) == rest + seq!['"'] + tail);
            assert(t[0] == '\\' && t.len() >= 2);
        } else {
            assert(t.skip(1) == rest + seq!['"'] + tail);
            assert(t[0] == s[0]);
        }
    }
}

proof fn lemma_unescape_quotes(s: Seq<char>)
    ensures
        replace_pair(escape_each(s), '\\', '"', '"') == backslashes_doubled(s),
    decreases s.len(),
{
    if s.len() > 0 {
        let rest = escape_each(s.skip(1));
        lemma_unescape_quotes(s.skip(1));
        lemma_escape_each_head(s.skip(1));
        let t = escape_each(s);
        assert(t == escape_char(s[0]) + rest);
        if s[0] == '\\' {
            let t1 = t.skip(1);
            assert(t1 == seq!['\\'] + rest);
            assert(t1.skip(1) == rest);
            assert(replace_pair(t1, '\\', '"', '"') == seq!['\\'] + replace_pair(
                rest,
                '\\',
                '"',
                '"',
            ));
            assert(replace_pair(t, '\\', '"', '"') == seq!['\\'] + replace_pair(
                t1,
                '\\',
                '"',
                '"',
            ));
        } else if s[0] == '"' {
            assert(t.skip(2) == rest);
        } else {
            assert(t.skip(1) == rest);
        }
    }
}

proof fn lemma_unescape_backslashes(s: Seq<char>)
    ensures
        replace_pair(backslashes_doubled(s), '\\', '\\', '\\') == s,
    decreases s.len(),
{
    if s.len() > 0 {
        lemma_unescape_backslashes(s.skip(1));
        let h = backslashes_doubled(s);
        let rest = backslashes_doubled(s.skip(1));
        if s[0] == '\\' {
            assert(h == seq!['\\', '\\'] + rest);
            assert(h.skip(2) == rest);
        } else {
            assert(h == seq![s[0]] + rest);
            assert(h.skip(1) == rest);
        }
        assert(seq![s[0]] + s.skip(1) == s);
    }
}

/// Unescaping undoes escaping, for every text.
pub proof fn lemma_unescape_escape(s: Seq<char>)
    ensures
        snbt_unescape(snbt_escape(s)) == s,
{
    lemma_escape_is_each(s);
    lemma_unescape_quotes(s);
    lemma_unescape_backslashes(s);
}

/// Reading a framed entry back out of the form in which the game stores it
/// gives back exactly the payload that was framed, whatever it holds.
pub proof fn lemma_snbt_roundtrip(tag: Seq<char>, payload: Seq<char>)
    requires
        tag.len() > 0 ==> tag[0] != '{',
    ensures
        snbt_unframe(tag, snbt_stored(tag, payload)) == Some(payload),
{
    let st = snbt_stored(tag, payload);
    let key = tag + seq![':', '"'];
    let e = snbt_escape(payload);
    lemma_escape_is_each(payload);
    lemma_stored_key_at_one(tag, payload);
    let t = st.skip(1 + key.len() as int);
    assert(t == e + seq!['"'] + seq!['}']);
    lemma_closing_quote_escaped(payload, seq!['}']);
    assert(t.take(e.len() as int) == e);
    lemma_unescape_escape(payload);
}


/// In a stored entry the key is first found right after the opening brace.
pub proof fn lemma_stored_key_at_one(tag: Seq<char>, payload: Seq<char>)
    requires
        tag.len() > 0 ==> tag[0] != '{',
    ensures
        find_from(snbt_stored(tag, payload), tag + seq![':', '"'], 0) == Some(1int),
        snbt_stored(tag, payload).skip(1 + tag.len() as int + 2) == snbt_escape(payload) + seq!['"', '}'],
{
    let st = snbt_stored(tag, payload);
    let key = tag + seq![':', '"'];
    assert(st[0] == '{');
    assert(key[0] != '{');
    assert(!occurs_at(st, key, 0)) by {
        if occurs_at(st, key, 0) {
            assert(st.subrange(0, key.len() as int)[0] == st[0]);
        }
    }
    assert(st.subrange(1, 1 + key.len() as int) == key);
    assert(occurs_at(st, key, 1));
    assert(find_from(st, key, 1) == Some(1int));
    assert(find_from(st, key, 0) == Some(1int));
    assert(st.skip(1 + tag.len() as int + 2) == snbt_escape(payload) + seq!['"', '}']);
}

/// The first quote at or after `i` is at `e` when none stands in between.
pub proof fn lemma_find_quote(s: Seq<char>, i: int, e: int)
    requires
        0 <= i <= e < s.len(),
        s[e] == '"',
        forall|k: int| i <= k < e ==> s[k] != '"',
    ensures
        find_from(s, seq!['"'], i) == Some(e),
    decreases e - i,
{
    if i < e {
        assert(!occurs_at(s, seq!['"'], i)) by {
            if occurs_at(s, seq!['"'], i) {
                assert(s.subrange(i, i + 1)[0] == s[i]);
            }
        }
        lemma_find_quote(s, i + 1, e);
    } else {
        assert(s.subrange(i, i + 1) == seq!['"']);
    }
}

/// Text with no quote and no backslash is left as it is by escaping.
pub proof fn lemma_escape_plain_text(s: Seq<char>)
    requires
        forall|i: int| 0 <= i < s.len() ==> s[i] != '"' && s[i] != '\\',
    ensures
        snbt_escape(s) == s,
    decreases s.len(),
{
    lemma_escape_is_each(s);
    lemma_escape_each_plain(s);
}

proof fn lemma_escape_each_plain(s: Seq<char>)
    requires
        forall|i: int| 0 <= i < s.len() ==> s[i] != '"' && s[i] != '\\',
    ensures
        escape_each(s) == s,
    decreases s.len(),
{
    if s.len() > 0 {
        assert forall|i: int| 0 <= i < s.skip(1).len() implies s.skip(1)[i] != '"' && s.skip(1)[i] != '\\' by {
            assert(s.skip(1)[i] == s[i + 1]);
        }
        lemma_escape_each_plain(s.skip(1));
        assert(seq![s[0]] + s.skip(1) == s);
    }
}

/// `yog-vlsi:chip_<tier id>`.
pub open spec fn chip_item_text(t: Tier) -> Seq<char> {
    "yog-vlsi:chip_"@ + t.spec_id()
}

/// The item id of a tier's microchip.
pub fn chip_item_id(tier: Tier) -> (r: String)
    ensures
        r@ == chip_item_text(tier),
{
    String::from_str("yog-vlsi:chip_").concat(tier.id())
}

impl ChipMeta {
    /// The SNBT of a chip item: the chip's metadata JSON as an escaped
    /// string under the `YogVlsiChip` key.
    pub fn to_nbt(json: &str) -> (r: String)
        ensures
            r@ == snbt_frame(chip_nbt_key(), json@),
    {
        snbt_frame_exec("YogVlsiChip", json, true)
    }

    /// The metadata JSON carried by a chip item's SNBT, unescaped; `None`
    /// when there is no `YogVlsiChip:"` entry.
    pub fn from_nbt(nbt: &str) -> (r: Option<String>)
        ensures
            match snbt_unframe(chip_nbt_key(), nbt@) {
                Some(j) => r is Some && r->0@ == j,
                None => r is None,
            },
    {
        snbt_unframe_exec("YogVlsiChip", nbt)
    }
}

/// The NBT key under which a chip item carries its metadata.
pub open spec fn chip_nbt_key() -> Seq<char> {
    "YogVlsiChip"@
}

/// What a chip item's SNBT, as the game stores it, gives back is the JSON
/// that was written into it.
pub proof fn lemma_chip_nbt_roundtrip(json: Seq<char>)
    ensures
        snbt_unframe(chip_nbt_key(), snbt_stored(chip_nbt_key(), json)) == Some(json),
{
    reveal_strlit("YogVlsiChip");
    lemma_snbt_roundtrip(chip_nbt_key(), json);
}

} // verus!
