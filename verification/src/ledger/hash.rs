use vstd::prelude::*;
use vstd::utf8::encode_utf8;
use vstd::bytes::{spec_u64_to_le_bytes, u64_to_le_bytes};
use crate::graph::node::SNode;
use crate::graph::store::{GraphStore, SGraph, tables_sorted};
use crate::graph::table::{keys_sorted, lower_bound, lemma_lower_bound, lemma_tbl_get_sorted, tbl_get};
use crate::ledger::json::{effects_json, effects_json_text, node_json, node_json_text};
use crate::lisp::effect::{Effect, SEffect, effects_view};
use crate::text::push_char;

verus! {

broadcast use vstd::std_specs::vec::group_vec_axioms, vstd::array::group_array_axioms;

/// The BLAKE3 digest of `data`, as `blake3::hash` computes it.
pub uninterp spec fn blake3_digest(data: Seq<u8>) -> Seq<u8>;

/// `blake3::hash`: the 32-byte BLAKE3 digest of the input. Nothing is claimed of
/// the digest beyond its being a function of the input bytes.
#[verifier::external_body]
fn blake3_bytes(data: &[u8]) -> (r: [u8; 32])
    ensures
        r@ == blake3_digest(data@),
{
    *blake3::hash(data).as_bytes()
}

/// Content hash (BLAKE3, 32 bytes).
#[derive(Clone, Copy, Debug, PartialEq, Eq, Hash)]
pub struct Hash(pub [u8; 32]);

impl View for Hash {
    type V = Seq<u8>;

    open spec fn view(&self) -> Seq<u8> {
        self.0@
    }
}

/// The lower-case hexadecimal digit for `d` (0 to 15).
pub open spec fn hex_char(d: int) -> char {
    if d < 10 {
        (d + 48) as char
    } else {
        (d + 87) as char
    }
}

/// Lower-case hexadecimal text of bytes: two digits per byte, high nibble first.
pub open spec fn hex_text(b: Seq<u8>) -> Seq<char> {
    Seq::new(
        2 * b.len(),
        |i: int|
            if i % 2 == 0 {
                hex_char(b[i / 2] as int / 16)
            } else {
                hex_char(b[i / 2] as int % 16)
            },
    )
}

/// The value of an ASCII hexadecimal digit (either case).
pub open spec fn hex_value(c: u8) -> Option<u8> {
    if 48 <= c <= 57 {
        Some((c - 48) as u8)
    } else if 97 <= c <= 102 {
        Some((c - 87) as u8)
    } else if 65 <= c <= 70 {
        Some((c - 55) as u8)
    } else {
        None
    }
}

/// The 32 bytes that 64 hexadecimal digits spell, or `None` for any other text.
pub open spec fn hex_decode(b: Seq<u8>) -> Option<Seq<u8>> {
    if b.len() == 64 && forall|i: int| 0 <= i < 64 ==> #[trigger] hex_value(b[i]) is Some {
        Some(
            Seq::new(
                32,
                |i: int| (hex_value(b[2 * i])->0 * 16 + hex_value(b[2 * i + 1])->0) as u8,
            ),
        )
    } else {
        None
    }
}

fn hex_digit_char(d: u8) -> (c: char)
    requires
        d < 16,
    ensures
        c == hex_char(d as int),
{
    if d < 10 {
        (d + 48u8) as char
    } else {
        (d + 87u8) as char
    }
}

fn hex_digit(c: u8) -> (r: Option<u8>)
    ensures
        r == hex_value(c),
{
    if 48 <= c && c <= 57 {
        Some(c - 48)
    } else if 97 <= c && c <= 102 {
        Some(c - 87)
    } else if 65 <= c && c <= 70 {
        Some(c - 55)
    } else {
        None
    }
}

fn hex_decode_bytes(b: &[u8]) -> (r: Option<[u8; 32]>)
    ensures
        match hex_decode(b@) {
            Some(v) => r matches Some(a) && a@ == v,
            None => r is None,
        },
{
    if b.len() != 64 {
        return None;
    }
    let mut bytes = [0u8; 32];
    let mut i: usize = 0;
    while i < 32
        invariant
            b@.len() == 64,
            i <= 32,
            bytes@.len() == 32,
            forall|k: int| 0 <= k < 2 * i ==> #[trigger] hex_value(b@[k]) is Some,
            forall|k: int|
                0 <= k < i ==> #[trigger] bytes@[k] == (hex_value(b@[2 * k])->0 * 16 + hex_value(
                    b@[2 * k + 1],
                )->0) as u8,
        decreases 32 - i,
    {
        let hi = match hex_digit(b[2 * i]) {
            Some(d) => d,
            None => {
                return None;
            },
        };
        let lo = match hex_digit(b[2 * i + 1]) {
            Some(d) => d,
            None => {
                return None;
            },
        };
        assert((hi << 4u8) | lo == hi * 16 + lo) by (bit_vector)
            requires
                hi < 16,
                lo < 16,
        ;
        bytes[i] = (hi << 4u8) | lo;
        i += 1;
    }
    assert(bytes@ =~= Seq::new(
        32,
        |k: int| (hex_value(b@[2 * k])->0 * 16 + hex_value(b@[2 * k + 1])->0) as u8,
    ));
    Some(bytes)
}

proof fn lemma_hex_char_value(d: int)
    requires
        0 <= d < 16,
    ensures
        hex_value(hex_char(d) as u8) == Some(d as u8),
        '\0' <= hex_char(d) <= '\u{7f}',
{
}

/// The upper-case form of an ASCII byte: `a`..`f` become `A`..`F`, and every
/// other byte stays.
pub open spec fn hex_upper(c: u8) -> u8 {
    if 97 <= c <= 102 {
        (c - 32) as u8
    } else {
        c
    }
}

/// Hexadecimal text is written in lower case, and read in either case: the
/// upper-case form of any text decodes as the text itself does.
pub proof fn law_hex_case(h: Seq<u8>, b: Seq<u8>)
    ensures
        forall|i: int|
            0 <= i < hex_text(h).len() ==> ('0' <= #[trigger] hex_text(h)[i] <= '9' || 'a'
                <= hex_text(h)[i] <= 'f'),
        hex_decode(b.map_values(|c: u8| hex_upper(c))) == hex_decode(b),
{
    let t = hex_text(h);
    assert forall|i: int| 0 <= i < t.len() implies ('0' <= #[trigger] t[i] <= '9' || 'a' <= t[i]
        <= 'f') by {
        let d = if i % 2 == 0 {
            h[i / 2] as int / 16
        } else {
            h[i / 2] as int % 16
        };
        assert(0 <= d < 16);
        assert(t[i] == hex_char(d));
    }
    let u = b.map_values(|c: u8| hex_upper(c));
    assert forall|i: int| 0 <= i < b.len() implies #[trigger] hex_value(u[i]) == hex_value(b[i]) by {
        assert(u[i] == hex_upper(b[i]));
    }
    if b.len() == 64 {
        if forall|i: int| 0 <= i < 64 ==> #[trigger] hex_value(b[i]) is Some {
            assert forall|i: int| 0 <= i < 64 implies #[trigger] hex_value(u[i]) is Some by {
                assert(hex_value(u[i]) == hex_value(b[i]));
            }
        }
        if forall|i: int| 0 <= i < 64 ==> #[trigger] hex_value(u[i]) is Some {
            assert forall|i: int| 0 <= i < 64 implies #[trigger] hex_value(b[i]) is Some by {
                assert(hex_value(u[i]) == hex_value(b[i]));
            }
        }
        if hex_decode(b) is Some {
            assert(hex_decode(u)->0 =~= hex_decode(b)->0) by {
                assert forall|k: int| 0 <= k < 32 implies #[trigger] hex_decode(u)->0[k]
                    == hex_decode(b)->0[k] by {
                    assert(hex_value(u[2 * k]) == hex_value(b[2 * k]));
                    assert(hex_value(u[2 * k + 1]) == hex_value(b[2 * k + 1]));
                }
            }
        }
    }
}

/// Decoding the hexadecimal text of a hash gives the hash back.
pub proof fn law_hex_roundtrip(h: Hash)
    ensures
        hex_decode(encode_utf8(hex_text(h@))) == Some(h@),
{
    let t = hex_text(h@);
    assert(h@.len() == 32);
    assert forall|i: int| 0 <= i < t.len() implies '\0' <= #[trigger] t[i] <= '\u{7f}' by {
        lemma_hex_char_value(h@[i / 2] as int / 16);
        lemma_hex_char_value(h@[i / 2] as int % 16);
    }
    assert(vstd::utf8::is_ascii_chars(t));
    vstd::utf8::is_ascii_chars_encode_utf8(t);
    let b = encode_utf8(t);
    assert forall|i: int| 0 <= i < 64 implies #[trigger] hex_value(b[i]) is Some by {
        lemma_hex_char_value(h@[i / 2] as int / 16);
        lemma_hex_char_value(h@[i / 2] as int % 16);
        assert(b[i] == t[i] as u8);
    }
    assert forall|k: int| 0 <= k < 32 implies (hex_value(b[2 * k])->0 * 16 + hex_value(
        b[2 * k + 1],
    )->0) as u8 == h@[k] by {
        assert(b[2 * k] == t[2 * k] as u8);
        assert(b[2 * k + 1] == t[2 * k + 1] as u8);
        assert((2 * k) / 2 == k);
        assert((2 * k + 1) / 2 == k);
        assert((2 * k) % 2 == 0);
        assert((2 * k + 1) % 2 == 1);
        lemma_hex_char_value(h@[k] as int / 16);
        lemma_hex_char_value(h@[k] as int % 16);
    }
    assert(hex_decode(b)->0 =~= h@);
}

/// The lower-case form of an ASCII byte: `A`..`F` become `a`..`f`, and every
/// other byte stays.
pub open spec fn hex_lower(c: u8) -> u8 {
    if 65 <= c <= 70 {
        (c + 32) as u8
    } else {
        c
    }
}

proof fn lemma_nibbles(hi: int, lo: int)
    by (nonlinear_arith)
    requires
        0 <= hi < 16,
        0 <= lo < 16,
    ensures
        0 <= hi * 16 + lo < 256,
        (hi * 16 + lo) / 16 == hi,
        (hi * 16 + lo) % 16 == lo,
{
}

/// Exactly the texts of 64 hexadecimal digits, in either case, decode; and
/// the hash a text decodes to prints as that text in lower case.
pub proof fn law_hex_decode_exact(b: Seq<u8>)
    ensures
        hex_decode(b) is Some <==> (b.len() == 64 && forall|i: int|
            0 <= i < 64 ==> #[trigger] hex_value(b[i]) is Some),
        hex_decode(b) is Some ==> encode_utf8(hex_text(hex_decode(b)->0)) == b.map_values(
            |c: u8| hex_lower(c),
        ),
{
    if let Some(h) = hex_decode(b) {
        let t = hex_text(h);
        assert(h.len() == 32);
        assert forall|i: int| 0 <= i < t.len() implies '\0' <= #[trigger] t[i] <= '\u{7f}' by {
            lemma_hex_char_value(h[i / 2] as int / 16);
            lemma_hex_char_value(h[i / 2] as int % 16);
        }
        assert(vstd::utf8::is_ascii_chars(t));
        vstd::utf8::is_ascii_chars_encode_utf8(t);
        let e = encode_utf8(t);
        let l = b.map_values(|c: u8| hex_lower(c));
        assert forall|i: int| 0 <= i < 64 implies #[trigger] e[i] == l[i] by {
            let k = i / 2;
            assert(0 <= k < 32);
            assert(2 * k == i || 2 * k + 1 == i);
            let hi = hex_value(b[2 * k])->0 as int;
            let lo = hex_value(b[2 * k + 1])->0 as int;
            assert(hex_value(b[2 * k]) is Some);
            assert(hex_value(b[2 * k + 1]) is Some);
            lemma_nibbles(hi, lo);
            assert(h[k] as int == hi * 16 + lo);
            assert(e[i] == t[i] as u8);
            if i % 2 == 0 {
                assert(t[i] == hex_char(hi));
            } else {
                assert(t[i] == hex_char(lo));
            }
        }
        assert(e =~= l);
    }
}

impl Hash {
    /// The all-zero hash.
    pub fn zero() -> (h: Hash)
        ensures
            h@ == Seq::new(32, |i: int| 0u8),
    {
        let h = Hash([0u8; 32]);
        assert(h@ =~= Seq::new(32, |i: int| 0u8));
        h
    }

    /// Hashes arbitrary bytes.
    pub fn of(data: &[u8]) -> (h: Hash)
        ensures
            h@ == blake3_digest(data@),
    {
        Hash(blake3_bytes(data))
    }

    /// Hashes a string: the BLAKE3 digest of its UTF-8 bytes.
    pub fn of_str(s: &str) -> (h: Hash)
        ensures
            h@ == blake3_digest(encode_utf8(s@)),
    {
        Hash::of(s.as_bytes())
    }

    /// Whether two hashes are equal.
    pub fn same(&self, other: &Hash) -> (b: bool)
        ensures
            b == (self@ == other@),
    {
        let mut i: usize = 0;
        while i < 32
            invariant
                i <= 32,
                self@.len() == 32,
                other@.len() == 32,
                forall|k: int| 0 <= k < i ==> self@[k] == other@[k],
            decreases 32 - i,
        {
            if self.0[i] != other.0[i] {
                assert(self@[i as int] != other@[i as int]);
                return false;
            }
            i += 1;
        }
        assert(self@ =~= other@);
        true
    }

    /// Lower-case hexadecimal text of the hash (64 digits).
    pub fn to_hex(&self) -> (s: String)
        ensures
            s@ == hex_text(self@),
    {
        let mut s = String::new();
        let mut i: usize = 0;
        while i < 32
            invariant
                i <= 32,
                self@.len() == 32,
                s@ == hex_text(self@.take(i as int)),
            decreases 32 - i,
        {
            let b = self.0[i];
            proof {
                assert(self@[i as int] == b);
            }
            push_char(&mut s, hex_digit_char(b / 16));
            push_char(&mut s, hex_digit_char(b % 16));
            assert(s@ =~= hex_text(self@.take(i + 1)));
            i += 1;
        }
        assert(self@.take(32) =~= self@);
        s
    }

    /// Parses 64 hexadecimal digits (either case); `None` for anything else.
    pub fn from_hex(s: &str) -> (r: Option<Hash>)
        ensures
            match hex_decode(encode_utf8(s@)) {
                Some(v) => r matches Some(h) && h@ == v,
                None => r is None,
            },
    {
        match hex_decode_bytes(s.as_bytes()) {
            Some(a) => Some(Hash(a)),
            None => None,
        }
    }
}

// ---------------------------------------------------------------------------
// Hashes of the graph state and of effect logs
// ---------------------------------------------------------------------------

/// Each node's identifier (8 bytes, little-endian) and the UTF-8 bytes of its
/// JSON form, in table order.
pub open spec fn nodes_bytes(t: Seq<(u64, SNode)>) -> Seq<u8>
    decreases t.len(),
{
    if t.len() == 0 {
        Seq::empty()
    } else {
        let e = t[t.len() - 1];
        nodes_bytes(t.drop_last()) + spec_u64_to_le_bytes(e.0) + encode_utf8(node_json(e.1))
    }
}

/// The identifiers, 8 little-endian bytes each.
pub open spec fn ids_bytes(s: Seq<u64>) -> Seq<u8>
    decreases s.len(),
{
    if s.len() == 0 {
        Seq::empty()
    } else {
        ids_bytes(s.drop_last()) + spec_u64_to_le_bytes(s[s.len() - 1])
    }
}

/// The bytes of `dep:`.
pub open spec fn dep_tag() -> Seq<u8> {
    seq![100u8, 101u8, 112u8, 58u8]
}

/// For each entry of the forward table, in order: `dep:`, the node's
/// identifier and the identifiers it depends on.
pub open spec fn deps_bytes(t: Seq<(u64, Seq<u64>)>) -> Seq<u8>
    decreases t.len(),
{
    if t.len() == 0 {
        Seq::empty()
    } else {
        let e = t[t.len() - 1];
        deps_bytes(t.drop_last()) + dep_tag() + spec_u64_to_le_bytes(e.0) + ids_bytes(e.1)
    }
}

/// The bytes that the graph hash digests: the nodes, then the dependency edges.
pub open spec fn graph_bytes(g: SGraph) -> Seq<u8> {
    nodes_bytes(g.nodes) + deps_bytes(g.fwd)
}

/// The content hash of a graph state.
pub open spec fn graph_hash(g: SGraph) -> Seq<u8> {
    blake3_digest(graph_bytes(g))
}

/// The bytes that an effect-log hash digests: the log's JSON text, or nothing
/// when the log has no JSON form (a record holds a closure).
pub open spec fn effect_log_bytes(es: Seq<SEffect>) -> Seq<u8> {
    match effects_json(es) {
        Some(t) => encode_utf8(t),
        None => Seq::empty(),
    }
}

/// The hash of an effect log.
pub open spec fn effects_hash(es: Seq<SEffect>) -> Seq<u8> {
    blake3_digest(effect_log_bytes(es))
}

fn append_bytes(out: &mut Vec<u8>, b: &[u8])
    ensures
        final(out)@ == old(out)@ + b@,
{
    let ghost start = out@;
    let mut i: usize = 0;
    while i < b.len()
        invariant
            i <= b.len(),
            out@ == start + b@.take(i as int),
        decreases b.len() - i,
    {
        out.push(b[i]);
        assert(b@.take(i + 1) == b@.take(i as int).push(b@[i as int]));
        i += 1;
    }
    assert(b@.take(b.len() as int) == b@);
}

fn append_id(out: &mut Vec<u8>, x: u64)
    ensures
        final(out)@ == old(out)@ + spec_u64_to_le_bytes(x),
{
    let le = u64_to_le_bytes(x);
    append_bytes(out, le.as_slice());
}

/// Computes the content hash of the entire graph state: every node with its
/// identifier, then every dependency edge, in ascending order of identifier.
pub fn hash_graph(graph: &GraphStore) -> (h: Hash)
    ensures
        h@ == graph_hash(graph@),
        tables_sorted(graph@),
{
    let mut data: Vec<u8> = Vec::new();
    let nodes = graph.nodes();
    let ghost t = nodes@;
    let mut i: usize = 0;
    while i < nodes.entries.len()
        invariant
            i <= nodes.entries.len(),
            t == nodes@,
            t.len() == nodes.entries@.len(),
            data@ == nodes_bytes(t.take(i as int)),
        decreases nodes.entries.len() - i,
    {
        proof {
            assert(t.take(i + 1).drop_last() == t.take(i as int));
            assert(t.take(i + 1)[i as int] == t[i as int]);
        }
        append_id(&mut data, nodes.entries[i].0.0);
        let j = node_json_text(&nodes.entries[i].1);
        append_bytes(&mut data, j.as_str().as_bytes());
        i += 1;
    }
    assert(t.take(t.len() as int) == t);
    let ghost nb = data@;
    let fwd = graph.forward_deps();
    let ghost f = fwd@;
    let mut k: usize = 0;
    while k < fwd.entries.len()
        invariant
            k <= fwd.entries.len(),
            f == fwd@,
            f.len() == fwd.entries@.len(),
            data@ == nb + deps_bytes(f.take(k as int)),
        decreases fwd.entries.len() - k,
    {
        proof {
            assert(f.take(k + 1).drop_last() == f.take(k as int));
            assert(f.take(k + 1)[k as int] == f[k as int]);
        }
        data.push(100u8);
        data.push(101u8);
        data.push(112u8);
        data.push(58u8);
        append_id(&mut data, fwd.entries[k].0.0);
        let targets = &fwd.entries[k].1;
        let ghost ts = f[k as int].1;
        let ghost before = data@;
        let mut m: usize = 0;
        while m < targets.len()
            invariant
                m <= targets.len(),
                ts == crate::graph::table::ids_view(targets@),
                data@ == before + ids_bytes(ts.take(m as int)),
            decreases targets.len() - m,
        {
            proof {
                assert(ts.take(m + 1).drop_last() == ts.take(m as int));
            }
            append_id(&mut data, targets[m].0);
            m += 1;
        }
        proof {
            assert(ts.take(ts.len() as int) == ts);
            assert(data@ == nb + deps_bytes(f.take(k + 1)));
        }
        k += 1;
    }
    assert(f.take(f.len() as int) == f);
    Hash::of(data.as_slice())
}

/// Hashes an effect log: the BLAKE3 digest of its JSON text (of nothing when
/// the log has no JSON form).
pub fn hash_effects(effects: &[Effect]) -> (h: Hash)
    ensures
        h@ == effects_hash(effects_view(effects@)),
{
    match effects_json_text(effects) {
        Some(t) => Hash::of(t.as_str().as_bytes()),
        None => {
            let empty: Vec<u8> = Vec::new();
            assert(empty@ =~= Seq::<u8>::empty());
            Hash::of(empty.as_slice())
        },
    }
}

/// Removing the first entry of a sorted table leaves the other keys' entries.
proof fn lemma_tbl_get_tail<V>(t: Seq<(u64, V)>, k: u64)
    requires
        keys_sorted(t),
        t.len() > 0,
    ensures
        k == t[0].0 ==> tbl_get(t.drop_first(), k) is None,
        k != t[0].0 ==> tbl_get(t.drop_first(), k) == tbl_get(t, k),
{
    let d = t.drop_first();
    lemma_lower_bound(d, k);
    lemma_lower_bound(t, k);
    if d.len() > 0 {
        assert(d[0] == t[1]);
        assert(t[0].0 < t[1].0);
    }
    if t[0].0 < k {
        assert(lower_bound(t, k) == 1 + lower_bound(d, k));
        let p = lower_bound(d, k);
        if p < d.len() {
            assert(t[p + 1] == d[p]);
        }
    } else {
        assert(lower_bound(t, k) == 0);
        if d.len() > 0 {
            assert(d[0].0 > t[0].0);
            assert(lower_bound(d, k) == 0);
        }
    }
}

/// Two sorted tables with the same entry under every key are equal.
proof fn lemma_sorted_tables_equal<V>(a: Seq<(u64, V)>, b: Seq<(u64, V)>)
    requires
        keys_sorted(a),
        keys_sorted(b),
        forall|k: u64| #[trigger] tbl_get(a, k) == tbl_get(b, k),
    ensures
        a == b,
    decreases a.len(),
{
    if a.len() == 0 {
        if b.len() > 0 {
            lemma_tbl_get_sorted(b, b[0].0, 0);
            assert(tbl_get(a, b[0].0) is None);
        }
        assert(a =~= b);
    } else {
        lemma_tbl_get_sorted(a, a[0].0, 0);
        assert(tbl_get(b, a[0].0) is Some);
        if b.len() == 0 {
            assert(tbl_get(b, a[0].0) is None);
        }
        lemma_tbl_get_sorted(b, b[0].0, 0);
        assert(tbl_get(a, b[0].0) is Some);
        lemma_lower_bound(a, b[0].0);
        lemma_lower_bound(b, a[0].0);
        let pa = lower_bound(a, b[0].0);
        let pb = lower_bound(b, a[0].0);
        if pa > 0 {
            assert(a[0].0 < a[pa].0);
        }
        if pb > 0 {
            assert(b[0].0 < b[pb].0);
        }
        assert(a[0].0 == b[0].0);
        assert(a[0].1 == b[0].1);
        let a1 = a.drop_first();
        let b1 = b.drop_first();
        assert forall|k: u64| #[trigger] tbl_get(a1, k) == tbl_get(b1, k) by {
            lemma_tbl_get_tail(a, k);
            lemma_tbl_get_tail(b, k);
            assert(tbl_get(a, k) == tbl_get(b, k));
        }
        assert(keys_sorted(a1)) by {
            assert forall|i: int, j: int| 0 <= i < j < a1.len() implies a1[i].0 < a1[j].0 by {
                assert(a1[i] == a[i + 1]);
                assert(a1[j] == a[j + 1]);
            }
        }
        assert(keys_sorted(b1)) by {
            assert forall|i: int, j: int| 0 <= i < j < b1.len() implies b1[i].0 < b1[j].0 by {
                assert(b1[i] == b[i + 1]);
                assert(b1[j] == b[j + 1]);
            }
        }
        lemma_sorted_tables_equal(a1, b1);
        assert(a =~= b) by {
            assert forall|i: int| 0 <= i < a.len() implies a[i] == b[i] by {
                if i > 0 {
                    assert(a[i] == a1[i - 1]);
                    assert(b[i] == b1[i - 1]);
                }
            }
        }
    }
}

/// The graph hash depends only on what the graph holds: graphs whose node and
/// forward tables are in ascending order of identifier (as every graph store
/// keeps them) and hold the same entries under every identifier have the same
/// hash, however they were built.
pub proof fn law_graph_hash_by_content(g1: SGraph, g2: SGraph)
    requires
        tables_sorted(g1),
        tables_sorted(g2),
        forall|k: u64| #[trigger] tbl_get(g1.nodes, k) == tbl_get(g2.nodes, k),
        forall|k: u64| #[trigger] tbl_get(g1.fwd, k) == tbl_get(g2.fwd, k),
    ensures
        graph_hash(g1) == graph_hash(g2),
{
    lemma_sorted_tables_equal(g1.nodes, g2.nodes);
    lemma_sorted_tables_equal(g1.fwd, g2.fwd);
}

} // verus!
