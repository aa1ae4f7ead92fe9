//! VLSI port blocks: the only physical blocks players place inside the
//! virtual circuit editor. A port's mode (input, output, bidirectional) is
//! which of the three block variants occupies the cell; using the block
//! cycles through them. The port's display label lives in the block's NBT.

use vstd::prelude::*;

use crate::chip::{
    lemma_escape_plain_text, lemma_find_quote, lemma_stored_key_at_one, snbt_frame_exec, snbt_stored, PortDir,
};
use crate::text::{chars_of, find_exec, find_from, lemma_find_from_found, occurs_at, str_eq, string_of};

verus! {

broadcast use vstd::string::group_string_axioms;

/// Block id of an input port.
pub const PORT_INPUT: &'static str = "yog-vlsi:port_input";

/// Block id of an output port.
pub const PORT_OUTPUT: &'static str = "yog-vlsi:port_output";

/// Block id of a bidirectional port.
pub const PORT_BIDI: &'static str = "yog-vlsi:port_bidi";

/// The block id that stands for a port mode.
pub open spec fn port_block_of(d: PortDir) -> Seq<char> {
    match d {
        PortDir::Input => "yog-vlsi:port_input"@,
        PortDir::Output => "yog-vlsi:port_output"@,
        PortDir::Bidirectional => "yog-vlsi:port_bidi"@,
    }
}

/// The mode that follows `d` when a port is used.
pub open spec fn spec_next_dir(d: PortDir) -> PortDir {
    match d {
        PortDir::Input => PortDir::Output,
        PortDir::Output => PortDir::Bidirectional,
        PortDir::Bidirectional => PortDir::Input,
    }
}

/// Whether `block_id` is one of the three port blocks.
pub fn is_port_block(block_id: &str) -> (r: bool)
    ensures
        r == (exists|d: PortDir| port_block_of(d) == block_id@),
{
    let r = str_eq(block_id, PORT_INPUT) || str_eq(block_id, PORT_OUTPUT) || str_eq(block_id, PORT_BIDI);
    proof {
        if !r {
            assert forall|d: PortDir| port_block_of(d) != block_id@ by {
                match d {
                    PortDir::Input => {},
                    PortDir::Output => {},
                    PortDir::Bidirectional => {},
                }
            }
        } else {
            if block_id@ == port_block_of(PortDir::Input) {
            } else if block_id@ == port_block_of(PortDir::Output) {
            } else {
                assert(port_block_of(PortDir::Bidirectional) == block_id@);
            }
        }
    }
    r
}

/// The mode of a port block; `None` for any other block.
pub fn dir_for_block(block_id: &str) -> (r: Option<PortDir>)
    ensures
        match r {
            Some(d) => port_block_of(d) == block_id@,
            None => forall|d: PortDir| port_block_of(d) != block_id@,
        },
{
    if str_eq(block_id, PORT_INPUT) {
        Some(PortDir::Input)
    } else if str_eq(block_id, PORT_OUTPUT) {
        Some(PortDir::Output)
    } else if str_eq(block_id, PORT_BIDI) {
        Some(PortDir::Bidirectional)
    } else {
        proof {
            assert forall|d: PortDir| port_block_of(d) != block_id@ by {
                match d {
                    PortDir::Input => {},
                    PortDir::Output => {},
                    PortDir::Bidirectional => {},
                }
            }
        }
        None
    }
}

/// The block id for a port mode.
pub fn block_for_dir(dir: PortDir) -> (r: &'static str)
    ensures
        r@ == port_block_of(dir),
{
    match dir {
        PortDir::Input => PORT_INPUT,
        PortDir::Output => PORT_OUTPUT,
        PortDir::Bidirectional => PORT_BIDI,
    }
}

/// The mode that follows `dir`: input, output, bidirectional, and round again.
pub fn next_dir(dir: PortDir) -> (r: PortDir)
    ensures
        r == spec_next_dir(dir),
{
    match dir {
        PortDir::Input => PortDir::Output,
        PortDir::Output => PortDir::Bidirectional,
        PortDir::Bidirectional => PortDir::Input,
    }
}

/// The block a port block turns into when used; `None` when `block_id` is
/// not a port block.
pub fn next_port_block(block_id: &str) -> (r: Option<&'static str>)
    ensures
        match r {
            Some(b) => exists|d: PortDir| port_block_of(d) == block_id@ && b@ == port_block_of(spec_next_dir(d)),
            None => forall|d: PortDir| port_block_of(d) != block_id@,
        },
{
    match dir_for_block(block_id) {
        Some(d) => Some(block_for_dir(next_dir(d))),
        None => None,
    }
}

/// The three port block ids are different, so a mode is recovered from its block.
pub proof fn lemma_dir_for_block_of_dir(d: PortDir, e: PortDir)
    ensures
        port_block_of(d) == port_block_of(e) <==> d == e,
{
    reveal_strlit("yog-vlsi:port_input");
    reveal_strlit("yog-vlsi:port_output");
    reveal_strlit("yog-vlsi:port_bidi");
    if d != e {
        match (d, e) {
            (PortDir::Input, PortDir::Output) => assert(port_block_of(d)[14] != port_block_of(e)[14]),
            (PortDir::Output, PortDir::Input) => assert(port_block_of(d)[14] != port_block_of(e)[14]),
            (PortDir::Input, PortDir::Bidirectional) => assert(port_block_of(d)[14] != port_block_of(e)[14]),
            (PortDir::Bidirectional, PortDir::Input) => assert(port_block_of(d)[14] != port_block_of(e)[14]),
            (PortDir::Output, PortDir::Bidirectional) => assert(port_block_of(d)[14] != port_block_of(e)[14]),
            (PortDir::Bidirectional, PortDir::Output) => assert(port_block_of(d)[14] != port_block_of(e)[14]),
            _ => {},
        }
    }
}

/// Using a port three times brings it back to its mode, and every use changes it.
pub proof fn lemma_next_dir_cycle(d: PortDir)
    ensures
        spec_next_dir(spec_next_dir(spec_next_dir(d))) == d,
        spec_next_dir(d) != d,
{
}

// ── Port labels ───────────────────────────────────────────────────────────────

/// The NBT key of a port block's label.
pub open spec fn label_key() -> Seq<char> {
    "YogVlsiPortLabel"@
}

/// The label in a port block's SNBT: the text after the first
/// `YogVlsiPortLabel:"` up to the next quote, taken as it stands.
pub open spec fn label_of(nbt: Seq<char>) -> Option<Seq<char>> {
    let key = label_key() + seq![':', '"'];
    match find_from(nbt, key, 0) {
        None => None,
        Some(p) => match find_from(nbt, seq!['"'], p + key.len()) {
            None => None,
            Some(e) => Some(nbt.subrange(p + key.len(), e)),
        },
    }
}

/// The label stored in a port block's SNBT, as `label_of` reads it.
pub fn label_from_nbt(nbt: &str) -> (r: Option<String>)
    ensures
        match label_of(nbt@) {
            Some(l) => r is Some && r->0@ == l,
            None => r is None,
        },
{
    let v = chars_of(nbt);
    let mut key = chars_of("YogVlsiPortLabel");
    key.push(':');
    key.push('"');
    assert(key@ == label_key() + seq![':', '"']);
    let vlen = v.len();
    match find_exec(&v, &key, 0) {
        None => None,
        Some(p) => {
            proof {
                lemma_find_from_found(v@, key@, 0);
                assert(find_from(v@, key@, 0) == Some(p as int));
                assert(occurs_at(v@, key@, p as int));
                assert(p + key@.len() <= vlen);
            }
            let start = p + key.len();
            let quote = vec!['"'];
            assert(quote@ == seq!['"']);
            match find_exec(&v, &quote, start) {
                None => None,
                Some(e) => {
                    proof {
                        lemma_find_from_found(v@, quote@, start as int);
                        assert(find_from(v@, quote@, start as int) == Some(e as int));
                        assert(occurs_at(v@, quote@, e as int));
                        assert(quote@ == seq!['"']);
                    }
                    let mut out: Vec<char> = Vec::new();
                    let mut i = start;
                    while i < e
                        invariant
                            start <= i <= e,
                            e < v@.len(),
                            out@ == v@.subrange(start as int, i as int),
                        decreases e - i,
                    {
                        out.push(v[i]);
                        assert(v@.subrange(start as int, i + 1) == v@.subrange(start as int, i as int).push(v@[i as int]));
                        i += 1;
                    }
                    Some(string_of(&out))
                },
            }
        },
    }
}

/// The SNBT that gives a port block the label `label`, escaped.
pub fn label_nbt(label: &str) -> (r: String)
    ensures
        r@ == snbt_stored(label_key(), label@),
{
    snbt_frame_exec("YogVlsiPortLabel", label, false)
}

/// A label with no quote and no backslash reads back as written; others
/// do not, since the reader neither skips escaped quotes nor unescapes.
pub proof fn lemma_label_roundtrip(label: Seq<char>)
    requires
        forall|i: int| 0 <= i < label.len() ==> label[i] != '"' && label[i] != '\\',
    ensures
        label_of(snbt_stored(label_key(), label)) == Some(label),
{
    reveal_strlit("YogVlsiPortLabel");
    let st = snbt_stored(label_key(), label);
    let key = label_key() + seq![':', '"'];
    lemma_stored_key_at_one(label_key(), label);
    lemma_escape_plain_text(label);
    let start: int = 1 + key.len() as int;
    assert(st.subrange(start, start + label.len()) == label);
    lemma_find_quote(st, start, start + label.len());
}

} // verus!
