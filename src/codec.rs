use vstd::prelude::*;
use crate::chunk::{Chunk, all_blocks};
use crate::consts::REGION_SIZE;
use crate::entity::{Entity, EntityId, Look, PrecisePosition};
use crate::packed::PackedIds;
use crate::region::Region;
use crate::table::{
    EntityTable, entry_map, has_key, insert_all, lemma_insert_all_unique, lemma_sorted_same_map,
    lemma_sorted_unique, unique_keys,
};

verus! {

/// `256` to the power `n`.
pub open spec fn pow256(n: nat) -> int
    decreases n,
{
    if n == 0 {
        1
    } else {
        256 * pow256((n - 1) as nat)
    }
}

/// The `n` low bytes of `v`, least significant first.
pub open spec fn le_bytes(v: int, n: nat) -> Seq<u8>
    decreases n,
{
    if n == 0 {
        Seq::empty()
    } else {
        seq![(v % 256) as u8] + le_bytes(v / 256, (n - 1) as nat)
    }
}

/// The number whose bytes, least significant first, are `b`.
pub open spec fn le_value(b: Seq<u8>) -> int
    decreases b.len(),
{
    if b.len() == 0 {
        0
    } else {
        b[0] as int + 256 * le_value(b.skip(1))
    }
}

pub(crate) proof fn lemma_pow256_values()
    ensures
        pow256(1) == 256,
        pow256(4) == 0x1_0000_0000,
        pow256(8) == 0x1_0000_0000_0000_0000,
        pow256(16) == 0x1_0000_0000_0000_0000_0000_0000_0000_0000,
{
    assert(pow256(0) == 1);
    assert(pow256(1) == 256);
    assert(pow256(2) == 0x1_0000);
    assert(pow256(3) == 0x100_0000);
    assert(pow256(4) == 0x1_0000_0000);
    assert(pow256(5) == 0x100_0000_0000);
    assert(pow256(6) == 0x1_0000_0000_0000);
    assert(pow256(7) == 0x100_0000_0000_0000);
    assert(pow256(8) == 0x1_0000_0000_0000_0000);
    assert(pow256(9) == 0x100_0000_0000_0000_0000);
    assert(pow256(10) == 0x1_0000_0000_0000_0000_0000);
    assert(pow256(11) == 0x100_0000_0000_0000_0000_0000);
    assert(pow256(12) == 0x1_0000_0000_0000_0000_0000_0000);
    assert(pow256(13) == 0x100_0000_0000_0000_0000_0000_0000);
    assert(pow256(14) == 0x1_0000_0000_0000_0000_0000_0000_0000);
    assert(pow256(15) == 0x100_0000_0000_0000_0000_0000_0000_0000);
    assert(pow256(16) == 0x1_0000_0000_0000_0000_0000_0000_0000_0000);
}

proof fn lemma_pow256_grows(a: nat, b: nat)
    requires
        a <= b,
    ensures
        1 <= pow256(a) <= pow256(b),
    decreases b,
{
    if b == 0 {
    } else if a == b {
        lemma_pow256_grows(0, (b - 1) as nat);
    } else {
        lemma_pow256_grows(a, (b - 1) as nat);
    }
}

pub(crate) proof fn lemma_le_len(v: int, n: nat)
    ensures
        le_bytes(v, n).len() == n,
    decreases n,
{
    if n > 0 {
        lemma_le_len(v / 256, (n - 1) as nat);
    }
}

/// Reading back the `n` low bytes of a value below `256^n` gives the value.
pub proof fn lemma_le_round_trip(v: int, n: nat)
    requires
        0 <= v < pow256(n),
    ensures
        le_bytes(v, n).len() == n,
        le_value(le_bytes(v, n)) == v,
    decreases n,
{
    if n > 0 {
        let m = (n - 1) as nat;
        assert(v / 256 < pow256(m)) by (nonlinear_arith)
            requires v < 256 * pow256(m), v >= 0;
        lemma_le_round_trip(v / 256, m);
        let b = le_bytes(v, n);
        assert(b.skip(1) =~= le_bytes(v / 256, m));
    }
}

pub(crate) proof fn lemma_le_value_bound(b: Seq<u8>)
    ensures
        0 <= le_value(b) < pow256(b.len()),
    decreases b.len(),
{
    if b.len() > 0 {
        lemma_le_value_bound(b.skip(1));
        let t = le_value(b.skip(1));
        let p = pow256((b.len() - 1) as nat);
        assert(0 <= b[0] as int + 256 * t < 256 * p) by (nonlinear_arith)
            requires 0 <= t < p, 0 <= b[0] < 256;
    }
}

/// Any `n` bytes are the `n` low bytes of the number they spell.
pub proof fn lemma_le_bytes_of_value(b: Seq<u8>)
    ensures
        le_bytes(le_value(b), b.len()) == b,
    decreases b.len(),
{
    if b.len() > 0 {
        let t = b.skip(1);
        lemma_le_bytes_of_value(t);
        lemma_le_value_bound(t);
        let v = le_value(b);
        assert(v == b[0] as int + 256 * le_value(t));
        assert(v % 256 == b[0] as int && v / 256 == le_value(t)) by (nonlinear_arith)
            requires v == b[0] as int + 256 * le_value(t), 0 <= b[0] < 256, le_value(t) >= 0;
        assert(le_bytes(v, b.len()) == seq![(v % 256) as u8] + le_bytes(v / 256, t.len()));
        assert(seq![(v % 256) as u8] + t =~= b);
    }
}

/// Where `b` from `pos` on reads `head` then `rest`, `head` lies at `pos`.
pub proof fn lemma_peel(b: Seq<u8>, pos: int, head: Seq<u8>, rest: Seq<u8>)
    requires
        0 <= pos <= b.len(),
        b.skip(pos) == head + rest,
    ensures
        pos + head.len() <= b.len(),
        b.subrange(pos, pos + head.len()) == head,
        b.skip(pos + head.len()) == rest,
{
    assert(b.skip(pos).len() == head.len() + rest.len());
    assert forall|j: int| 0 <= j < head.len() implies b.subrange(pos, pos + head.len())[j] == head[j] by {
        assert(b.skip(pos)[j] == (head + rest)[j]);
    }
    assert(b.subrange(pos, pos + head.len()) =~= head);
    assert forall|j: int| 0 <= j < rest.len() implies b.skip(pos + head.len())[j] == rest[j] by {
        assert(b.skip(pos)[head.len() + j] == (head + rest)[head.len() + j]);
        assert(b.skip(pos)[head.len() + j] == b[pos + head.len() + j]);
        assert(b.skip(pos + head.len())[j] == b[pos + head.len() + j]);
    }
    assert(b.skip(pos + head.len()) =~= rest);
}

/// Appends the `n` low bytes of `v`, least significant first.
pub fn push_le(out: &mut Vec<u8>, v: u128, n: usize)
    ensures
        final(out)@ == old(out)@ + le_bytes(v as int, n as nat),
{
    let ghost start = out@;
    let mut cur = v;
    let mut i: usize = 0;
    while i < n
        invariant
            i <= n,
            start + le_bytes(v as int, n as nat) == out@ + le_bytes(cur as int, (n - i) as nat),
        decreases n - i,
    {
        let ghost before = out@;
        proof {
            let rest = le_bytes(cur as int / 256, (n - i - 1) as nat);
            assert(le_bytes(cur as int, (n - i) as nat) == seq![(cur as int % 256) as u8] + rest);
            assert(before + (seq![(cur as int % 256) as u8] + rest) =~= before.push((cur % 256) as u8) + rest);
        }
        out.push((cur % 256) as u8);
        cur = cur / 256;
        i += 1;
    }
    assert(out@ + le_bytes(cur as int, 0) =~= out@);
}

/// The value of the `n` bytes at `pos`, least significant first, if there are
/// that many.
pub fn read_le(bytes: &Vec<u8>, pos: usize, n: usize) -> (r: Option<u128>)
    requires
        n <= 16,
    ensures
        r is Some <==> pos + n <= bytes@.len(),
        r is Some ==> r->0 == le_value(bytes@.subrange(pos as int, pos + n)),
{
    if n > bytes.len() || pos > bytes.len() - n {
        return None;
    }
    let mut acc: u128 = 0;
    let mut i: usize = n;
    proof {
        lemma_pow256_values();
    }
    while i > 0
        invariant
            n <= 16,
            pos + n <= bytes@.len(),
            bytes@.len() <= usize::MAX,
            i <= n,
            acc == le_value(bytes@.subrange(pos + i, pos + n)),
            pow256(16) == 0x1_0000_0000_0000_0000_0000_0000_0000_0000,
        decreases i,
    {
        let ghost tail = bytes@.subrange(pos + i, pos + n);
        let ghost full = bytes@.subrange(pos + i - 1, pos + n);
        proof {
            assert(full.skip(1) =~= tail);
            lemma_le_value_bound(tail);
            lemma_le_value_bound(full);
            lemma_pow256_grows(full.len(), 16);
            assert(acc as int + 0 == le_value(tail));
            assert(le_value(full) == full[0] as int + 256 * le_value(tail));
            assert(full[0] == bytes@[pos + i - 1]);
        }
        acc = acc * 256 + bytes[pos + i - 1] as u128;
        i -= 1;
    }
    Some(acc)
}

/// A piece of `s`, taken from a stretch of `b` that holds `s` at `pos`.
pub proof fn lemma_sub(b: Seq<u8>, pos: int, s: Seq<u8>, off: int, len: int)
    requires
        0 <= pos,
        pos + s.len() <= b.len(),
        b.subrange(pos, pos + s.len()) == s,
        0 <= off,
        0 <= len,
        off + len <= s.len(),
    ensures
        b.subrange(pos + off, pos + off + len) == s.subrange(off, off + len),
{
    assert forall|j: int| 0 <= j < len implies #[trigger] b.subrange(pos + off, pos + off + len)[j] == s.subrange(off, off + len)[j] by {
        assert(b.subrange(pos, pos + s.len())[off + j] == s[off + j]);
    }
    assert(b.subrange(pos + off, pos + off + len) =~= s.subrange(off, off + len));
}

/// The bytes of `ws`, eight per word, least significant first.
pub open spec fn words_bytes(ws: Seq<u64>) -> Seq<u8>
    decreases ws.len(),
{
    if ws.len() == 0 {
        Seq::empty()
    } else {
        le_bytes(ws[0] as int, 8) + words_bytes(ws.skip(1))
    }
}

proof fn lemma_words_bytes(ws: Seq<u64>, i: int)
    requires
        0 <= i < ws.len(),
    ensures
        words_bytes(ws).len() == 8 * ws.len(),
        words_bytes(ws).subrange(8 * i, 8 * i + 8) == le_bytes(ws[i] as int, 8),
    decreases ws.len(),
{
    lemma_words_len(ws);
    lemma_pow256_values();
    lemma_le_round_trip(ws[0] as int, 8);
    let head = le_bytes(ws[0] as int, 8);
    let tail = words_bytes(ws.skip(1));
    if i == 0 {
        assert((head + tail).subrange(0, 8) =~= head);
    } else {
        lemma_words_bytes(ws.skip(1), i - 1);
        assert((head + tail).subrange(8 * i, 8 * i + 8) =~= tail.subrange(8 * (i - 1), 8 * (i - 1) + 8));
    }
}

proof fn lemma_words_push(ws: Seq<u64>, w: u64)
    ensures
        words_bytes(ws.push(w)) == words_bytes(ws) + le_bytes(w as int, 8),
    decreases ws.len(),
{
    if ws.len() == 0 {
        assert(ws.push(w).skip(1) =~= Seq::<u64>::empty());
        assert(ws.push(w)[0] == w);
        assert(words_bytes(Seq::<u64>::empty()) == Seq::<u8>::empty());
        assert(words_bytes(ws) == Seq::<u8>::empty());
        assert(words_bytes(ws.push(w)) == le_bytes(w as int, 8) + words_bytes(ws.push(w).skip(1)));
        assert(words_bytes(ws.push(w)) =~= words_bytes(ws) + le_bytes(w as int, 8));
    } else {
        lemma_words_push(ws.skip(1), w);
        assert(ws.push(w).skip(1) =~= ws.skip(1).push(w));
        assert(ws.push(w)[0] == ws[0]);
        assert(words_bytes(ws.push(w)) =~= words_bytes(ws) + le_bytes(w as int, 8));
    }
}

proof fn lemma_words_len(ws: Seq<u64>)
    ensures
        words_bytes(ws).len() == 8 * ws.len(),
    decreases ws.len(),
{
    if ws.len() > 0 {
        lemma_words_len(ws.skip(1));
        lemma_pow256_values();
        lemma_le_round_trip(ws[0] as int, 8);
    }
}

/// The bytes of a chunk's packed store: its width in one byte, the number of
/// words in eight, then the words.
pub open spec fn chunk_bytes(p: PackedIds) -> Seq<u8> {
    le_bytes(p.spec_bits() as int, 1) + le_bytes(p.spec_words().len() as int, 8) + words_bytes(p.spec_words())
}

/// The bytes of the chunks of `r` from index `c` on.
pub open spec fn chunks_bytes(r: Region, c: int) -> Seq<u8>
    decreases REGION_SIZE - c,
{
    if 0 <= c < REGION_SIZE {
        chunk_bytes(r.spec_chunk(c).spec_packed()) + chunks_bytes(r, c + 1)
    } else {
        Seq::empty()
    }
}

/// The bytes of one entity entry: its id, the variant tag, then the fields.
pub open spec fn entity_bytes(id: EntityId, e: Entity) -> Seq<u8> {
    match e {
        Entity::Player { player_id, position, look } => le_bytes(id as int, 16) + le_bytes(0, 4)
            + le_bytes(player_id as int, 16) + le_bytes(position.x as int, 4) + le_bytes(position.y as int, 4)
            + le_bytes(position.z as int, 4) + le_bytes(look.yaw as int, 4) + le_bytes(look.pitch as int, 4),
    }
}

/// The bytes of entity entries, in order.
pub open spec fn entries_bytes(s: Seq<(EntityId, Entity)>) -> Seq<u8>
    decreases s.len(),
{
    if s.len() == 0 {
        Seq::empty()
    } else {
        entity_bytes(s[0].0, s[0].1) + entries_bytes(s.skip(1))
    }
}

/// The canonical bytes of a region: its chunks in chunk order, then the
/// number of entities in eight bytes and the entities sorted by id.
pub open spec fn region_bytes(r: Region) -> Seq<u8> {
    chunks_bytes(r, 0) + le_bytes(r.spec_entities().spec_entries().len() as int, 8)
        + entries_bytes(r.spec_entities().spec_entries())
}

/// `bytes` is the canonical encoding of the well-formed region `x`, whose
/// entities can be counted in a `usize`.
pub open spec fn encodes(bytes: Seq<u8>, x: Region) -> bool {
    &&& x.wf()
    &&& x.spec_entities().spec_entries().len() <= usize::MAX
    &&& region_bytes(x) == bytes
}

/// `bytes` encodes the well-formed region `x` as its canonical bytes do,
/// except that the entity entries come as `s`: the same entities, one entry
/// per id, in any order.
pub open spec fn encodes_permuted(bytes: Seq<u8>, x: Region, s: Seq<(EntityId, Entity)>) -> bool {
    &&& x.wf()
    &&& s.len() <= usize::MAX
    &&& unique_keys(s)
    &&& entry_map(s) == x@.entities
    &&& bytes == chunks_bytes(x, 0) + le_bytes(s.len() as int, 8) + entries_bytes(s)
}

/// The bytes of the packed stores of `cs`, in order.
pub open spec fn chunk_list_bytes(cs: Seq<Chunk>) -> Seq<u8>
    decreases cs.len(),
{
    if cs.len() == 0 {
        Seq::empty()
    } else {
        chunk_list_bytes(cs.drop_last()) + chunk_bytes(cs.last().spec_packed())
    }
}

proof fn lemma_chunk_list_bytes(r: Region, cs: Seq<Chunk>, c: int)
    requires
        cs.len() == REGION_SIZE,
        forall|d: int| 0 <= d < REGION_SIZE ==> #[trigger] r.spec_chunk(d) == cs[d],
        0 <= c <= REGION_SIZE,
    ensures
        chunk_list_bytes(cs.take(c)) + chunks_bytes(r, c) == chunk_list_bytes(cs),
    decreases REGION_SIZE - c,
{
    if c == REGION_SIZE {
        assert(cs.take(c) =~= cs);
        assert(chunks_bytes(r, c) == Seq::<u8>::empty());
        assert(chunk_list_bytes(cs) + Seq::<u8>::empty() =~= chunk_list_bytes(cs));
    } else {
        lemma_chunk_list_bytes(r, cs, c + 1);
        assert(cs.take(c + 1).drop_last() =~= cs.take(c));
        assert(r.spec_chunk(c) == cs[c]);
        assert(chunk_list_bytes(cs.take(c)) + chunks_bytes(r, c)
            =~= chunk_list_bytes(cs.take(c + 1)) + chunks_bytes(r, c + 1));
    }
}

proof fn lemma_chunks_bytes_same(a: Region, b: Region, c: int)
    requires
        forall|d: int| 0 <= d < REGION_SIZE ==>
            (#[trigger] a.spec_chunk(d)).spec_packed().spec_bits() == b.spec_chunk(d).spec_packed().spec_bits()
            && a.spec_chunk(d).spec_packed().spec_words() == b.spec_chunk(d).spec_packed().spec_words(),
        0 <= c <= REGION_SIZE,
    ensures
        chunks_bytes(a, c) == chunks_bytes(b, c),
    decreases REGION_SIZE - c,
{
    if c < REGION_SIZE {
        lemma_chunks_bytes_same(a, b, c + 1);
        assert(a.spec_chunk(c).spec_packed().spec_bits() == b.spec_chunk(c).spec_packed().spec_bits());
    }
}

proof fn lemma_entries_push(s: Seq<(EntityId, Entity)>, e: (EntityId, Entity))
    ensures
        entries_bytes(s.push(e)) == entries_bytes(s) + entity_bytes(e.0, e.1),
    decreases s.len(),
{
    let t = s.push(e);
    if s.len() == 0 {
        assert(t.skip(1) =~= Seq::<(EntityId, Entity)>::empty());
        assert(t[0] == e);
        assert(entries_bytes(t) == entity_bytes(e.0, e.1) + entries_bytes(t.skip(1)));
        assert(entries_bytes(t) =~= entries_bytes(s) + entity_bytes(e.0, e.1));
    } else {
        lemma_entries_push(s.skip(1), e);
        assert(t.skip(1) =~= s.skip(1).push(e));
        assert(t[0] == s[0]);
        assert(entries_bytes(t) =~= entries_bytes(s) + entity_bytes(e.0, e.1));
    }
}

/// The canonical bytes of a region are one of its permuted encodings: the
/// one with the entries sorted.
pub proof fn lemma_canonical_is_permuted(bytes: Seq<u8>, x: Region)
    requires
        encodes(bytes, x),
    ensures
        encodes_permuted(bytes, x, x.spec_entities().spec_entries()),
{
    x.lemma_wf();
    x.spec_entities().lemma_entries();
    lemma_sorted_unique(x.spec_entities().spec_entries());
}

/// Bytes that are not the encoding of a region.
#[derive(Clone, Copy, Debug, PartialEq, Eq, Structural)]
pub struct DecodeError;

fn encode_chunk(out: &mut Vec<u8>, p: &PackedIds)
    ensures
        final(out)@ == old(out)@ + chunk_bytes(*p),
{
    let ghost start = out@;
    push_le(out, p.bits() as u128, 1);
    let words = p.words();
    push_le(out, words.len() as u128, 8);
    let ghost mid = out@;
    let mut i: usize = 0;
    assert(words@.skip(0) =~= words@);
    while i < words.len()
        invariant
            i <= words@.len(),
            words@ == p.spec_words(),
            mid + words_bytes(words@) == out@ + words_bytes(words@.skip(i as int)),
        decreases words@.len() - i,
    {
        let ghost before = out@;
        proof {
            let s = words@.skip(i as int);
            assert(s.skip(1) =~= words@.skip(i + 1));
            assert(s[0] == words@[i as int]);
            assert(words_bytes(s) == le_bytes(s[0] as int, 8) + words_bytes(s.skip(1)));
        }
        push_le(out, words[i] as u128, 8);
        proof {
            assert(before + words_bytes(words@.skip(i as int)) =~= out@ + words_bytes(words@.skip(i + 1)));
        }
        i += 1;
    }
    proof {
        assert(words@.skip(words@.len() as int) =~= Seq::<u64>::empty());
        assert(out@ + Seq::<u8>::empty() =~= out@);
        assert(start + chunk_bytes(*p) =~= mid + words_bytes(words@));
    }
}

pub(crate) fn encode_entity(out: &mut Vec<u8>, id: EntityId, e: Entity)
    ensures
        final(out)@ == old(out)@ + entity_bytes(id, e),
{
    let ghost start = out@;
    match e {
        Entity::Player { player_id, position, look } => {
            push_le(out, id, 16);
            push_le(out, 0, 4);
            push_le(out, player_id, 16);
            push_le(out, position.x as u128, 4);
            push_le(out, position.y as u128, 4);
            push_le(out, position.z as u128, 4);
            push_le(out, look.yaw as u128, 4);
            push_le(out, look.pitch as u128, 4);
            assert(out@ =~= start + entity_bytes(id, e));
        },
    }
}

/// The canonical bytes of a region.
pub fn encode_region(r: &Region) -> (out: Vec<u8>)
    requires
        r.wf(),
    ensures
        out@ == region_bytes(*r),
{
    let mut out: Vec<u8> = Vec::new();
    let mut c: usize = 0;
    while c < REGION_SIZE as usize
        invariant
            r.wf(),
            c <= REGION_SIZE,
            chunks_bytes(*r, 0) == out@ + chunks_bytes(*r, c as int),
        decreases REGION_SIZE - c,
    {
        let ghost before = out@;
        encode_chunk(&mut out, r.chunk(c).packed());
        proof {
            assert(chunks_bytes(*r, c as int) == chunk_bytes(r.spec_chunk(c as int).spec_packed()) + chunks_bytes(*r, c + 1));
            assert(before + chunks_bytes(*r, c as int) =~= out@ + chunks_bytes(*r, c + 1));
        }
        c += 1;
    }
    let ghost chunks_end = out@;
    assert(chunks_end =~= chunks_bytes(*r, 0));
    let entries = r.entities().entries();
    push_le(&mut out, entries.len() as u128, 8);
    let ghost mid = out@;
    let mut i: usize = 0;
    assert(entries@.skip(0) =~= entries@);
    while i < entries.len()
        invariant
            i <= entries@.len(),
            mid + entries_bytes(entries@) == out@ + entries_bytes(entries@.skip(i as int)),
        decreases entries@.len() - i,
    {
        let ghost before = out@;
        proof {
            let s = entries@.skip(i as int);
            assert(s.skip(1) =~= entries@.skip(i + 1));
            assert(s[0] == entries@[i as int]);
            assert(entries_bytes(s) == entity_bytes(s[0].0, s[0].1) + entries_bytes(s.skip(1)));
        }
        let (id, e) = entries[i];
        encode_entity(&mut out, id, e);
        proof {
            assert(before + entries_bytes(entries@.skip(i as int)) =~= out@ + entries_bytes(entries@.skip(i + 1)));
        }
        i += 1;
    }
    proof {
        assert(entries@.skip(entries@.len() as int) =~= Seq::<(EntityId, Entity)>::empty());
        assert(out@ =~= region_bytes(*r));
    }
    out
}

/// The encoding of the packed store `p`, whose values all name blocks, lies
/// in `bytes` at `pos`.
pub open spec fn chunk_at(bytes: Seq<u8>, pos: int, p: PackedIds) -> bool {
    &&& p.wf()
    &&& all_blocks(p@)
    &&& 0 <= pos
    &&& pos + chunk_bytes(p).len() <= bytes.len()
    &&& bytes.subrange(pos, pos + chunk_bytes(p).len()) == chunk_bytes(p)
}

proof fn lemma_chunk_fields(bytes: Seq<u8>, pos: int, p: PackedIds)
    requires
        chunk_at(bytes, pos, p),
    ensures
        chunk_bytes(p).len() == 9 + 8 * p.spec_words().len(),
        le_value(bytes.subrange(pos, pos + 1)) == p.spec_bits(),
        le_value(bytes.subrange(pos + 1, pos + 9)) == p.spec_words().len(),
        p.spec_words().len() == 8 * p.spec_bits(),
        forall|i: int| 0 <= i < p.spec_words().len() ==>
            le_value(#[trigger] bytes.subrange(pos + 9 + 8 * i, pos + 9 + 8 * i + 8)) == p.spec_words()[i],
{
    let ws = p.spec_words();
    let a = le_bytes(p.spec_bits() as int, 1);
    let b = le_bytes(ws.len() as int, 8);
    let c = words_bytes(ws);
    let cb = chunk_bytes(p);
    lemma_pow256_values();
    lemma_le_len(p.spec_bits() as int, 1);
    lemma_le_len(ws.len() as int, 8);
    lemma_words_len(ws);
    assert(pow256(1) == 256);
    lemma_le_round_trip(p.spec_bits() as int, 1);
    lemma_le_round_trip(ws.len() as int, 8);
    lemma_sub(bytes, pos, cb, 0, 1);
    assert(cb.subrange(0, 1) =~= a);
    lemma_sub(bytes, pos, cb, 1, 8);
    assert(cb.subrange(1, 9) =~= b);
    assert forall|i: int| 0 <= i < ws.len() implies
        le_value(#[trigger] bytes.subrange(pos + 9 + 8 * i, pos + 9 + 8 * i + 8)) == ws[i] by {
        lemma_words_bytes(ws, i);
        lemma_le_round_trip(ws[i] as int, 8);
        lemma_sub(bytes, pos, cb, 9 + 8 * i, 8);
        assert(cb.subrange(9 + 8 * i, 9 + 8 * i + 8) =~= c.subrange(8 * i, 8 * i + 8));
    }
}

/// Reads the packed store of one chunk at `pos`: on success, the chunk and
/// the position after it.
fn read_chunk(bytes: &Vec<u8>, pos: usize) -> (r: Option<(Chunk, usize)>)
    ensures
        r is Some ==> r.unwrap().0.wf() && pos <= r.unwrap().1 <= bytes@.len()
            && bytes@.subrange(pos as int, r.unwrap().1 as int) == chunk_bytes(r.unwrap().0.spec_packed()),
        forall|p: PackedIds| #[trigger] chunk_at(bytes@, pos as int, p) ==>
            r is Some && r.unwrap().0@ == p@ && r.unwrap().1 == pos + chunk_bytes(p).len()
            && r.unwrap().0.spec_packed().spec_bits() == p.spec_bits()
            && r.unwrap().0.spec_packed().spec_words() == p.spec_words(),
{
    let total = bytes.len();
    let b = match read_le(bytes, pos, 1) {
        Some(b) => b,
        None => {
            proof {
                assert forall|p: PackedIds| #[trigger] chunk_at(bytes@, pos as int, p) implies false by {
                    lemma_chunk_fields(bytes@, pos as int, p);
                }
            }
            return None;
        },
    };
    let n = match read_le(bytes, pos + 1, 8) {
        Some(n) => n,
        None => {
            proof {
                assert forall|p: PackedIds| #[trigger] chunk_at(bytes@, pos as int, p) implies false by {
                    lemma_chunk_fields(bytes@, pos as int, p);
                }
            }
            return None;
        },
    };
    proof {
        lemma_pow256_values();
        lemma_le_value_bound(bytes@.subrange(pos as int, pos + 1));
        assert(pow256(1) == 256);
        assert forall|p: PackedIds| #[trigger] chunk_at(bytes@, pos as int, p) implies
            b == p.spec_bits() && n == p.spec_words().len() by {
            lemma_chunk_fields(bytes@, pos as int, p);
        }
    }
    let bits = b as u64;
    if !(bits == 1 || bits == 2 || bits == 4 || bits == 8 || bits == 16 || bits == 32 || bits == 64) || n != 8 * b {
        proof {
            assert forall|p: PackedIds| #[trigger] chunk_at(bytes@, pos as int, p) implies false by {
                lemma_chunk_fields(bytes@, pos as int, p);
            }
        }
        return None;
    }
    let count = n as usize;
    let start = pos + 9;
    if count > (total - start) / 8 {
        proof {
            assert forall|p: PackedIds| #[trigger] chunk_at(bytes@, pos as int, p) implies false by {
                lemma_chunk_fields(bytes@, pos as int, p);
            }
        }
        return None;
    }
    let mut words: Vec<u64> = Vec::new();
    let mut i: usize = 0;
    assert(bytes@.subrange(start as int, start as int) =~= words_bytes(words@));
    while i < count
        invariant
            count == n,
            n <= 512,
            start == pos + 9,
            start + 8 * count <= bytes@.len(),
            bytes@.len() == total,
            i <= count,
            words@.len() == i,
            bytes@.subrange(start as int, start + 8 * i) == words_bytes(words@),
            forall|p: PackedIds| #[trigger] chunk_at(bytes@, pos as int, p) ==>
                n == p.spec_words().len() && words@ == p.spec_words().take(i as int),
        decreases count - i,
    {
        let w = match read_le(bytes, start + 8 * i, 8) {
            Some(w) => w,
            None => {
                proof {
                    assert forall|p: PackedIds| #[trigger] chunk_at(bytes@, pos as int, p) implies false by {
                        lemma_chunk_fields(bytes@, pos as int, p);
                    }
                }
                return None;
            },
        };
        proof {
            lemma_le_value_bound(bytes@.subrange(start + 8 * i, start + 8 * i + 8));
            assert forall|p: PackedIds| #[trigger] chunk_at(bytes@, pos as int, p) implies
                words@.push(w as u64) == p.spec_words().take(i + 1) by {
                lemma_chunk_fields(bytes@, pos as int, p);
                assert(le_value(bytes@.subrange(pos + 9 + 8 * i, pos + 9 + 8 * i + 8)) == p.spec_words()[i as int]);
                assert(words@.push(w as u64) =~= p.spec_words().take(i + 1));
            }
        }
        let ghost before = words@;
        words.push(w as u64);
        proof {
            let seg = bytes@.subrange(start + 8 * i, start + 8 * i + 8);
            lemma_le_bytes_of_value(seg);
            lemma_pow256_values();
            lemma_le_value_bound(seg);
            assert((w as u64) as int == le_value(seg));
            assert(le_bytes((w as u64) as int, 8) == seg);
            lemma_words_push(before, w as u64);
            assert(bytes@.subrange(start as int, start + 8 * (i + 1)) =~= bytes@.subrange(start as int, start + 8 * i) + seg);
        }
        i += 1;
    }
    proof {
        assert forall|p: PackedIds| #[trigger] chunk_at(bytes@, pos as int, p) implies
            words@ == p.spec_words() && start + 8 * count == pos + chunk_bytes(p).len() by {
            lemma_chunk_fields(bytes@, pos as int, p);
            assert(words@ =~= p.spec_words());
        }
    }
    let end = start + 8 * count;
    if end > bytes.len() {
        return None;
    }
    let packed = match PackedIds::from_parts(bits, words) {
        Some(q) => q,
        None => {
            return None;
        },
    };
    proof {
        let b1 = bytes@.subrange(pos as int, pos + 1);
        let b8 = bytes@.subrange(pos + 1, pos + 9);
        lemma_le_bytes_of_value(b1);
        lemma_le_bytes_of_value(b8);
        assert(bytes@.subrange(pos as int, end as int) =~= b1 + b8 + bytes@.subrange(start as int, end as int));
        assert(packed.spec_words().len() == n);
    }
    match Chunk::from_packed(packed) {
        Some(chunk) => Some((chunk, end)),
        None => None,
    }
}

/// The encoding of entry `(id, e)` lies in `bytes` at `pos`.
pub open spec fn entity_at(bytes: Seq<u8>, pos: int, id: EntityId, e: Entity) -> bool {
    &&& 0 <= pos
    &&& pos + 56 <= bytes.len()
    &&& bytes.subrange(pos, pos + 56) == entity_bytes(id, e)
}

pub(crate) proof fn lemma_entity_len(id: EntityId, e: Entity)
    ensures
        entity_bytes(id, e).len() == 56,
{
    match e {
        Entity::Player { player_id, position, look } => {
            lemma_le_len(id as int, 16);
            lemma_le_len(0, 4);
            lemma_le_len(player_id as int, 16);
            lemma_le_len(position.x as int, 4);
            lemma_le_len(position.y as int, 4);
            lemma_le_len(position.z as int, 4);
            lemma_le_len(look.yaw as int, 4);
            lemma_le_len(look.pitch as int, 4);
        },
    }
}

pub(crate) proof fn lemma_entity_fields(bytes: Seq<u8>, pos: int, id: EntityId, e: Entity)
    requires
        entity_at(bytes, pos, id, e),
    ensures
        match e {
            Entity::Player { player_id, position, look } => {
                &&& le_value(bytes.subrange(pos + 0, pos + 16)) == id as int
                &&& le_value(bytes.subrange(pos + 16, pos + 20)) == 0
                &&& le_value(bytes.subrange(pos + 20, pos + 36)) == player_id as int
                &&& le_value(bytes.subrange(pos + 36, pos + 40)) == position.x as int
                &&& le_value(bytes.subrange(pos + 40, pos + 44)) == position.y as int
                &&& le_value(bytes.subrange(pos + 44, pos + 48)) == position.z as int
                &&& le_value(bytes.subrange(pos + 48, pos + 52)) == look.yaw as int
                &&& le_value(bytes.subrange(pos + 52, pos + 56)) == look.pitch as int
            },
        },
{
    lemma_pow256_values();
    lemma_entity_len(id, e);
    match e {
        Entity::Player { player_id, position, look } => {
            let eb = entity_bytes(id, e);
            lemma_le_len(id as int, 16);
            lemma_le_round_trip(id as int, 16);
            lemma_sub(bytes, pos, eb, 0, 16);
            lemma_le_len(0, 4);
            lemma_le_round_trip(0, 4);
            lemma_sub(bytes, pos, eb, 16, 4);
            lemma_le_len(player_id as int, 16);
            lemma_le_round_trip(player_id as int, 16);
            lemma_sub(bytes, pos, eb, 20, 16);
            lemma_le_len(position.x as int, 4);
            lemma_le_round_trip(position.x as int, 4);
            lemma_sub(bytes, pos, eb, 36, 4);
            lemma_le_len(position.y as int, 4);
            lemma_le_round_trip(position.y as int, 4);
            lemma_sub(bytes, pos, eb, 40, 4);
            lemma_le_len(position.z as int, 4);
            lemma_le_round_trip(position.z as int, 4);
            lemma_sub(bytes, pos, eb, 44, 4);
            lemma_le_len(look.yaw as int, 4);
            lemma_le_round_trip(look.yaw as int, 4);
            lemma_sub(bytes, pos, eb, 48, 4);
            lemma_le_len(look.pitch as int, 4);
            lemma_le_round_trip(look.pitch as int, 4);
            lemma_sub(bytes, pos, eb, 52, 4);
            assert(eb.subrange(0, 16) =~= le_bytes(id as int, 16));
            assert(eb.subrange(16, 20) =~= le_bytes(0, 4));
            assert(eb.subrange(20, 36) =~= le_bytes(player_id as int, 16));
            assert(eb.subrange(36, 40) =~= le_bytes(position.x as int, 4));
            assert(eb.subrange(40, 44) =~= le_bytes(position.y as int, 4));
            assert(eb.subrange(44, 48) =~= le_bytes(position.z as int, 4));
            assert(eb.subrange(48, 52) =~= le_bytes(look.yaw as int, 4));
            assert(eb.subrange(52, 56) =~= le_bytes(look.pitch as int, 4));
        },
    }
}

pub(crate) fn read_field(bytes: &Vec<u8>, pos: usize, n: usize) -> (r: u128)
    requires
        n <= 16,
        pos + n <= bytes@.len(),
    ensures
        r == le_value(bytes@.subrange(pos as int, pos + n)),
        r < pow256(n as nat),
{
    proof {
        lemma_le_value_bound(bytes@.subrange(pos as int, pos + n));
    }
    match read_le(bytes, pos, n) {
        Some(v) => v,
        None => 0,
    }
}

/// Reads one entity entry at `pos`: on success, the entry and the position
/// after it.
pub(crate) fn read_entity(bytes: &Vec<u8>, pos: usize) -> (r: Option<((EntityId, Entity), usize)>)
    ensures
        r is Some ==> pos <= r.unwrap().1 <= bytes@.len()
            && bytes@.subrange(pos as int, r.unwrap().1 as int) == entity_bytes(r.unwrap().0.0, r.unwrap().0.1),
        forall|id: EntityId, e: Entity| #[trigger] entity_at(bytes@, pos as int, id, e) ==>
            r is Some && r.unwrap().0 == (id, e) && r.unwrap().1 == pos + 56,
{
    let total = bytes.len();
    if pos > total || total - pos < 56 {
        return None;
    }
    proof {
        lemma_pow256_values();
    }
    let id = read_field(bytes, pos, 16);
    let tag = read_field(bytes, pos + 16, 4);
    let player_id = read_field(bytes, pos + 20, 16);
    let x = read_field(bytes, pos + 36, 4);
    let y = read_field(bytes, pos + 40, 4);
    let z = read_field(bytes, pos + 44, 4);
    let yaw = read_field(bytes, pos + 48, 4);
    let pitch = read_field(bytes, pos + 52, 4);
    if tag != 0 {
        proof {
            assert forall|i: EntityId, e: Entity| #[trigger] entity_at(bytes@, pos as int, i, e) implies false by {
                lemma_entity_fields(bytes@, pos as int, i, e);
            }
        }
        return None;
    }
    let e = Entity::Player {
        player_id,
        position: PrecisePosition { x: x as u32, y: y as u32, z: z as u32 },
        look: Look { yaw: yaw as u32, pitch: pitch as u32 },
    };
    proof {
        assert forall|i: EntityId, f: Entity| #[trigger] entity_at(bytes@, pos as int, i, f) implies (id, e) == (i, f) by {
            lemma_entity_fields(bytes@, pos as int, i, f);
        }
        let b = bytes@;
        let p = pos as int;
        let parts = seq![
            b.subrange(p, p + 16), b.subrange(p + 16, p + 20), b.subrange(p + 20, p + 36),
            b.subrange(p + 36, p + 40), b.subrange(p + 40, p + 44), b.subrange(p + 44, p + 48),
            b.subrange(p + 48, p + 52), b.subrange(p + 52, p + 56)
        ];
        lemma_le_bytes_of_value(parts[0]);
        lemma_le_bytes_of_value(parts[1]);
        lemma_le_bytes_of_value(parts[2]);
        lemma_le_bytes_of_value(parts[3]);
        lemma_le_bytes_of_value(parts[4]);
        lemma_le_bytes_of_value(parts[5]);
        lemma_le_bytes_of_value(parts[6]);
        lemma_le_bytes_of_value(parts[7]);
        assert(b.subrange(p, p + 56) =~= parts[0] + parts[1] + parts[2] + parts[3] + parts[4] + parts[5] + parts[6] + parts[7]);
        assert(b.subrange(p, p + 56) =~= entity_bytes(id, e));
    }
    Some(((id, e), pos + 56))
}

/// The region that `bytes` encode. The chunks and their packed stores are
/// read in order; the entity entries may come in any order, one per id, and
/// the region holds them sorted. Any other bytes give `DecodeError`.
pub fn decode_region(bytes: &Vec<u8>) -> (r: Result<Region, DecodeError>)
    ensures
        r is Ok ==> r.unwrap().wf() && exists|s: Seq<(EntityId, Entity)>| #[trigger] encodes_permuted(bytes@, r.unwrap(), s),
        forall|x: Region, s: Seq<(EntityId, Entity)>| #[trigger] encodes_permuted(bytes@, x, s) ==>
            r is Ok && r.unwrap()@ == x@ && region_bytes(r.unwrap()) == region_bytes(x),
        forall|x: Region| #[trigger] encodes(bytes@, x) ==>
            r is Ok && r.unwrap()@ == x@ && region_bytes(r.unwrap()) == bytes@,
{
    let r = decode_permuted(bytes);
    proof {
        assert forall|x: Region| #[trigger] encodes(bytes@, x) implies
            r is Ok && r.unwrap()@ == x@ && region_bytes(r.unwrap()) == bytes@ by {
            lemma_canonical_is_permuted(bytes@, x);
            assert(encodes_permuted(bytes@, x, x.spec_entities().spec_entries()));
        }
    }
    r
}

fn decode_permuted(bytes: &Vec<u8>) -> (r: Result<Region, DecodeError>)
    ensures
        r is Ok ==> r.unwrap().wf() && exists|s: Seq<(EntityId, Entity)>| #[trigger] encodes_permuted(bytes@, r.unwrap(), s),
        forall|x: Region, s: Seq<(EntityId, Entity)>| #[trigger] encodes_permuted(bytes@, x, s) ==>
            r is Ok && r.unwrap()@ == x@ && region_bytes(r.unwrap()) == region_bytes(x),
{
    let total = bytes.len();
    let mut chunks: Vec<Chunk> = Vec::new();
    let mut pos: usize = 0;
    let mut c: usize = 0;
    proof {
        assert(bytes@.subrange(0, 0) =~= chunk_list_bytes(chunks@));
        assert forall|x: Region, s: Seq<(EntityId, Entity)>| #[trigger] encodes_permuted(bytes@, x, s) implies
            bytes@.skip(0) == chunks_bytes(x, 0) + (le_bytes(s.len() as int, 8) + entries_bytes(s))
            && x@.chunks.len() == REGION_SIZE by {
            assert(bytes@.skip(0) =~= bytes@);
            assert(chunks_bytes(x, 0) + le_bytes(s.len() as int, 8) + entries_bytes(s)
                =~= chunks_bytes(x, 0) + (le_bytes(s.len() as int, 8) + entries_bytes(s)));
            x.lemma_wf();
        }
    }
    while c < REGION_SIZE as usize
        invariant
            bytes@.len() == total,
            c <= REGION_SIZE,
            pos <= total,
            chunks@.len() == c,
            forall|d: int| 0 <= d < c ==> (#[trigger] chunks@[d]).wf(),
            bytes@.subrange(0, pos as int) == chunk_list_bytes(chunks@),
            forall|x: Region, s: Seq<(EntityId, Entity)>| #[trigger] encodes_permuted(bytes@, x, s) ==> {
                &&& x@.chunks.len() == REGION_SIZE
                &&& bytes@.skip(pos as int) == chunks_bytes(x, c as int) + (le_bytes(s.len() as int, 8) + entries_bytes(s))
                &&& forall|d: int| 0 <= d < c ==>
                    (#[trigger] chunks@[d]).spec_packed().spec_bits() == x.spec_chunk(d).spec_packed().spec_bits()
                    && chunks@[d].spec_packed().spec_words() == x.spec_chunk(d).spec_packed().spec_words()
            },
        decreases REGION_SIZE - c,
    {
        let next = read_chunk(bytes, pos);
        proof {
            assert forall|x: Region, s: Seq<(EntityId, Entity)>| #[trigger] encodes_permuted(bytes@, x, s) implies
                next is Some && next.unwrap().0.spec_packed().spec_bits() == x.spec_chunk(c as int).spec_packed().spec_bits()
                && next.unwrap().0.spec_packed().spec_words() == x.spec_chunk(c as int).spec_packed().spec_words()
                && bytes@.skip(next.unwrap().1 as int) == chunks_bytes(x, c + 1) + (le_bytes(s.len() as int, 8) + entries_bytes(s)) by {
                x.lemma_wf();
                let p = x.spec_chunk(c as int).spec_packed();
                x.spec_chunk(c as int).lemma_wf();
                let tail = le_bytes(s.len() as int, 8) + entries_bytes(s);
                assert(chunks_bytes(x, c as int) == chunk_bytes(p) + chunks_bytes(x, c + 1));
                assert(chunks_bytes(x, c as int) + tail =~= chunk_bytes(p) + (chunks_bytes(x, c + 1) + tail));
                lemma_peel(bytes@, pos as int, chunk_bytes(p), chunks_bytes(x, c + 1) + tail);
                assert(chunk_at(bytes@, pos as int, p));
            }
        }
        match next {
            Some((chunk, end)) => {
                let ghost before = chunks@;
                let ghost old_pos = pos;
                chunks.push(chunk);
                pos = end;
                proof {
                    assert(chunks@.drop_last() =~= before);
                    assert(bytes@.subrange(0, pos as int) =~= bytes@.subrange(0, old_pos as int) + bytes@.subrange(old_pos as int, pos as int));
                }
            },
            None => {
                return Err(DecodeError);
            },
        }
        c += 1;
    }
    let chunks_end = pos;
    proof {
        assert forall|x: Region, s: Seq<(EntityId, Entity)>| #[trigger] encodes_permuted(bytes@, x, s) implies
            bytes@.skip(pos as int) == le_bytes(s.len() as int, 8) + entries_bytes(s) by {
            assert(chunks_bytes(x, REGION_SIZE as int) == Seq::<u8>::empty());
            assert(Seq::<u8>::empty() + (le_bytes(s.len() as int, 8) + entries_bytes(s)) =~= le_bytes(s.len() as int, 8) + entries_bytes(s));
        }
    }
    let n = match read_le(bytes, pos, 8) {
        Some(n) => n,
        None => {
            proof {
                assert forall|x: Region, s: Seq<(EntityId, Entity)>| #[trigger] encodes_permuted(bytes@, x, s) implies false by {
                    lemma_le_len(s.len() as int, 8);
                    lemma_peel(bytes@, pos as int, le_bytes(s.len() as int, 8), entries_bytes(s));
                }
            }
            return Err(DecodeError);
        },
    };
    pos = pos + 8;
    proof {
        lemma_pow256_values();
        assert forall|x: Region, s: Seq<(EntityId, Entity)>| #[trigger] encodes_permuted(bytes@, x, s) implies
            n == s.len() && bytes@.skip(pos as int) == entries_bytes(s.skip(0)) by {
            assert(s.len() < pow256(8));
            lemma_le_len(s.len() as int, 8);
            lemma_le_round_trip(s.len() as int, 8);
            lemma_peel(bytes@, pos - 8, le_bytes(s.len() as int, 8), entries_bytes(s));
            assert(s.skip(0) =~= s);
        }
    }
    if n > usize::MAX as u128 {
        return Err(DecodeError);
    }
    let entries_start = pos;
    let mut table = EntityTable::new();
    let mut i: u128 = 0;
    let ghost mut read: Seq<(EntityId, Entity)> = Seq::empty();
    proof {
        assert(bytes@.subrange(pos as int, pos as int) =~= entries_bytes(read));
        assert(table@ =~= insert_all(Map::empty(), read));
        assert forall|x: Region, s: Seq<(EntityId, Entity)>| #[trigger] encodes_permuted(bytes@, x, s) implies
            read == s.take(0) by {
            assert(s.take(0) =~= read);
        }
    }
    while i < n
        invariant
            bytes@.len() == total,
            entries_start <= pos <= total,
            i <= n,
            n <= usize::MAX,
            table.wf(),
            read.len() == i,
            unique_keys(read),
            table@ == insert_all(Map::empty(), read),
            bytes@.subrange(entries_start as int, pos as int) == entries_bytes(read),
            forall|x: Region, s: Seq<(EntityId, Entity)>| #[trigger] encodes_permuted(bytes@, x, s) ==> {
                &&& n == s.len()
                &&& bytes@.skip(pos as int) == entries_bytes(s.skip(i as int))
                &&& read == s.take(i as int)
            },
        decreases n - i,
    {
        let next = read_entity(bytes, pos);
        proof {
            assert forall|x: Region, s: Seq<(EntityId, Entity)>| #[trigger] encodes_permuted(bytes@, x, s) implies
                next is Some && next.unwrap().0 == s[i as int]
                && bytes@.skip(next.unwrap().1 as int) == entries_bytes(s.skip(i + 1)) by {
                let rest = s.skip(i as int);
                assert(rest.skip(1) =~= s.skip(i + 1));
                assert(rest[0] == s[i as int]);
                assert(entries_bytes(rest) == entity_bytes(rest[0].0, rest[0].1) + entries_bytes(rest.skip(1)));
                lemma_peel(bytes@, pos as int, entity_bytes(s[i as int].0, s[i as int].1), entries_bytes(s.skip(i + 1)));
                lemma_entity_len(s[i as int].0, s[i as int].1);
                assert(entity_at(bytes@, pos as int, s[i as int].0, s[i as int].1));
            }
        }
        match next {
            Some(((id, e), end)) => {
                proof {
                    lemma_insert_all_unique(read);
                }
                if table.contains(id) {
                    proof {
                        assert forall|x: Region, s: Seq<(EntityId, Entity)>| #[trigger] encodes_permuted(bytes@, x, s) implies false by {
                            let j = choose|j: int| 0 <= j < read.len() && read[j].0 == id;
                            assert(read[j] == s[j]);
                            assert(s[i as int].0 == id);
                        }
                    }
                    return Err(DecodeError);
                }
                let ghost old_pos = pos;
                let ghost before = read;
                table.insert(id, e);
                pos = end;
                proof {
                    read = read.push((id, e));
                    assert(read.drop_last() =~= before);
                    assert forall|a: int, b: int| 0 <= a < b < read.len() implies read[a].0 != read[b].0 by {
                        if b == read.len() - 1 {
                            assert(has_key(before, read[a].0));
                        }
                    }
                    lemma_entries_push(before, (id, e));
                    assert(bytes@.subrange(entries_start as int, pos as int)
                        =~= bytes@.subrange(entries_start as int, old_pos as int) + bytes@.subrange(old_pos as int, pos as int));
                    assert forall|x: Region, s: Seq<(EntityId, Entity)>| #[trigger] encodes_permuted(bytes@, x, s) implies
                        read == s.take(i + 1) by {
                        assert(read =~= s.take(i + 1));
                    }
                }
            },
            None => {
                return Err(DecodeError);
            },
        }
        i += 1;
    }
    if pos != total {
        proof {
            assert forall|x: Region, s: Seq<(EntityId, Entity)>| #[trigger] encodes_permuted(bytes@, x, s) implies false by {
                assert(s.skip(s.len() as int) =~= Seq::<(EntityId, Entity)>::empty());
            }
        }
        return Err(DecodeError);
    }
    let ghost read_chunks = chunks@;
    match Region::from_parts(chunks, table) {
        Some(region) => {
            proof {
                region.lemma_wf();
                region.spec_entities().lemma_entries();
                lemma_insert_all_unique(read);
                assert forall|d: int| 0 <= d < REGION_SIZE implies #[trigger] region.spec_chunk(d) == read_chunks[d] by {}
                lemma_chunk_list_bytes(region, read_chunks, 0);
                assert(read_chunks.take(0) =~= Seq::<Chunk>::empty());
                assert(chunk_list_bytes(Seq::<Chunk>::empty()) + chunks_bytes(region, 0) =~= chunks_bytes(region, 0));
                let count_bytes = bytes@.subrange(chunks_end as int, chunks_end + 8);
                lemma_le_bytes_of_value(count_bytes);
                assert(bytes@ =~= bytes@.subrange(0, chunks_end as int) + count_bytes + bytes@.subrange(entries_start as int, total as int));
                assert(encodes_permuted(bytes@, region, read));
                assert forall|x: Region, s: Seq<(EntityId, Entity)>| #[trigger] encodes_permuted(bytes@, x, s) implies
                    region@ == x@ && region_bytes(region) == region_bytes(x) by {
                    x.lemma_wf();
                    x.spec_entities().lemma_entries();
                    assert(s.take(s.len() as int) =~= s);
                    assert forall|d: int| 0 <= d < REGION_SIZE implies
                        (#[trigger] region.spec_chunk(d)).spec_packed().spec_bits() == x.spec_chunk(d).spec_packed().spec_bits()
                        && region.spec_chunk(d).spec_packed().spec_words() == x.spec_chunk(d).spec_packed().spec_words() by {
                        assert(region.spec_chunk(d) == read_chunks[d]);
                    }
                    assert forall|d: int| 0 <= d < REGION_SIZE implies region@.chunks[d] == x@.chunks[d] by {
                        region.spec_chunk(d).lemma_wf();
                        x.spec_chunk(d).lemma_wf();
                        assert(region.spec_chunk(d).spec_packed()@ =~= x.spec_chunk(d).spec_packed()@);
                    }
                    assert(region@.chunks =~= x@.chunks);
                    lemma_chunks_bytes_same(region, x, 0);
                    lemma_sorted_same_map(region.spec_entities().spec_entries(), x.spec_entities().spec_entries());
                }
            }
            Ok(region)
        },
        None => Err(DecodeError),
    }
}

} // verus!
