//! The persistence format: a length-prefixed binary layout for the whole
//! document-to-filter collection, with a version tag at the front.
//!
//! The blob is, in order: the format version and the entry count, each a
//! little-endian `u64`; then per entry the two halves of the document id as
//! length-prefixed UTF-8 bytes, the filter's exported bucket table as a
//! length-prefixed byte run, and its element count as a `u64`. Decoding
//! rejects a wrong version, any truncated or malformed run, and trailing
//! bytes; encoding and decoding are verified inverses.

use vstd::bytes::{
    lemma_auto_spec_u64_to_from_le_bytes, spec_u64_from_le_bytes, spec_u64_to_le_bytes,
    u64_from_le_bytes, u64_to_le_bytes,
};
use vstd::prelude::*;
use vstd::slice::{slice_index_get, slice_subrange, slice_to_vec};
use vstd::utf8::{decode_utf8, encode_utf8, encode_utf8_decode_utf8, encode_utf8_valid_utf8,
    valid_utf8};

use crate::filter::ExportedFilter;
use crate::storage::PostId;

verus! {

/// The version written at the front of every blob; any other value is
/// rejected on load.
pub const FORMAT_VERSION: u64 = 1;

/// The model of one persisted entry: the document id's two halves, the
/// exported bucket bytes, and the exported element count.
pub type EntryModel = ((Seq<char>, Seq<char>), (Seq<u8>, nat));

/// The model of one in-memory entry about to be persisted.
pub open spec fn entry_view(e: (PostId, ExportedFilter)) -> EntryModel {
    ((e.0.0@, e.0.1@), (e.1.values@, e.1.length as nat))
}

/// The models of a whole entry list.
pub open spec fn entries_view(v: Seq<(PostId, ExportedFilter)>) -> Seq<EntryModel> {
    v.map_values(|e: (PostId, ExportedFilter)| entry_view(e))
}

/// Every component of the entry fits the `u64` length prefixes and the
/// `usize` element count; true of anything that exists in memory.
pub open spec fn entry_bounded(e: EntryModel) -> bool {
    &&& encode_utf8(e.0.0).len() <= u64::MAX
    &&& encode_utf8(e.0.1).len() <= u64::MAX
    &&& e.1.0.len() <= u64::MAX
    &&& e.1.1 <= usize::MAX
}

/// A bounded entry whose bucket run is non-empty, as every exported table's
/// is: exactly the entries decoding accepts.
pub open spec fn entry_decodable(e: EntryModel) -> bool {
    entry_bounded(e) && 0 < e.1.0.len()
}

/// A byte run preceded by its length as a little-endian `u64`.
pub open spec fn spec_encode_chunk(b: Seq<u8>) -> Seq<u8> {
    spec_u64_to_le_bytes(b.len() as u64) + b
}

/// A string as its length-prefixed UTF-8 bytes.
pub open spec fn spec_encode_string(s: Seq<char>) -> Seq<u8> {
    spec_encode_chunk(encode_utf8(s))
}

pub open spec fn spec_encode_entry(e: EntryModel) -> Seq<u8> {
    spec_encode_string(e.0.0) + spec_encode_string(e.0.1) + spec_encode_chunk(e.1.0)
        + spec_u64_to_le_bytes(e.1.1 as u64)
}

pub open spec fn spec_encode_entries(es: Seq<EntryModel>) -> Seq<u8>
    decreases es.len(),
{
    if es.len() == 0 {
        Seq::empty()
    } else {
        spec_encode_entry(es.first()) + spec_encode_entries(es.drop_first())
    }
}

pub open spec fn spec_encode_storage(es: Seq<EntryModel>) -> Seq<u8> {
    spec_u64_to_le_bytes(FORMAT_VERSION) + spec_u64_to_le_bytes(es.len() as u64)
        + spec_encode_entries(es)
}

pub open spec fn parse_u64(b: Seq<u8>) -> Option<(u64, Seq<u8>)> {
    if b.len() >= 8 {
        Some((spec_u64_from_le_bytes(b.take(8)), b.skip(8)))
    } else {
        None
    }
}

pub open spec fn parse_chunk(b: Seq<u8>) -> Option<(Seq<u8>, Seq<u8>)> {
    match parse_u64(b) {
        Some((n, rest)) => if n <= rest.len() {
            Some((rest.take(n as int), rest.skip(n as int)))
        } else {
            None
        },
        None => None,
    }
}

pub open spec fn parse_string(b: Seq<u8>) -> Option<(Seq<char>, Seq<u8>)> {
    match parse_chunk(b) {
        Some((chunk, rest)) => if valid_utf8(chunk) {
            Some((decode_utf8(chunk), rest))
        } else {
            None
        },
        None => None,
    }
}

pub open spec fn parse_entry(b: Seq<u8>) -> Option<(EntryModel, Seq<u8>)> {
    match parse_string(b) {
        Some((id0, b1)) => match parse_string(b1) {
            Some((id1, b2)) => match parse_chunk(b2) {
                Some((vals, b3)) => match parse_u64(b3) {
                    Some((len, b4)) => if 0 < vals.len() && len <= usize::MAX as u64 {
                        Some((((id0, id1), (vals, len as nat)), b4))
                    } else {
                        None
                    },
                    None => None,
                },
                None => None,
            },
            None => None,
        },
        None => None,
    }
}

pub open spec fn parse_entries(b: Seq<u8>, n: nat) -> Option<(Seq<EntryModel>, Seq<u8>)>
    decreases n,
{
    if n == 0 {
        Some((Seq::empty(), b))
    } else {
        match parse_entry(b) {
            Some((e, rest)) => match parse_entries(rest, (n - 1) as nat) {
                Some((es, rest2)) => Some((seq![e] + es, rest2)),
                None => None,
            },
            None => None,
        }
    }
}

/// What a blob decodes to: `None` when it must be rejected.
pub open spec fn spec_decode_storage(b: Seq<u8>) -> Option<Seq<EntryModel>> {
    match parse_u64(b) {
        Some((ver, b1)) => if ver == FORMAT_VERSION {
            match parse_u64(b1) {
                Some((count, b2)) => match parse_entries(b2, count as nat) {
                    Some((es, rest)) => if rest.len() == 0 {
                        Some(es)
                    } else {
                        None
                    },
                    None => None,
                },
                None => None,
            }
        } else {
            None
        },
        None => None,
    }
}

/// The error a rejected blob is reported with: a readable version field that
/// is not ours is an unsupported version; everything else is malformed.
#[derive(Clone, Copy, PartialEq, Eq, Structural, Debug)]
pub enum DecodeError {
    UnsupportedVersion,
    Malformed,
}

pub open spec fn spec_decode_err(b: Seq<u8>) -> DecodeError {
    match parse_u64(b) {
        Some((ver, _)) => if ver != FORMAT_VERSION {
            DecodeError::UnsupportedVersion
        } else {
            DecodeError::Malformed
        },
        None => DecodeError::Malformed,
    }
}

proof fn lemma_parse_u64_of_encode(x: u64, rest: Seq<u8>)
    ensures
        parse_u64(spec_u64_to_le_bytes(x) + rest) == Some((x, rest)),
{
    lemma_auto_spec_u64_to_from_le_bytes();
    let b = spec_u64_to_le_bytes(x) + rest;
    assert(b.take(8) =~= spec_u64_to_le_bytes(x));
    assert(b.skip(8) =~= rest);
}

proof fn lemma_parse_chunk_of_encode(c: Seq<u8>, rest: Seq<u8>)
    requires
        c.len() <= u64::MAX,
    ensures
        parse_chunk(spec_encode_chunk(c) + rest) == Some((c, rest)),
{
    assert(spec_encode_chunk(c) + rest =~= spec_u64_to_le_bytes(c.len() as u64) + (c + rest));
    lemma_parse_u64_of_encode(c.len() as u64, c + rest);
    assert((c + rest).take(c.len() as int) =~= c);
    assert((c + rest).skip(c.len() as int) =~= rest);
}

proof fn lemma_parse_string_of_encode(s: Seq<char>, rest: Seq<u8>)
    requires
        encode_utf8(s).len() <= u64::MAX,
    ensures
        parse_string(spec_encode_string(s) + rest) == Some((s, rest)),
{
    lemma_parse_chunk_of_encode(encode_utf8(s), rest);
    encode_utf8_valid_utf8(s);
    encode_utf8_decode_utf8(s);
}

proof fn lemma_parse_entry_of_encode(e: EntryModel, rest: Seq<u8>)
    requires
        entry_decodable(e),
    ensures
        parse_entry(spec_encode_entry(e) + rest) == Some((e, rest)),
{
    let s0 = spec_encode_string(e.0.0);
    let s1 = spec_encode_string(e.0.1);
    let cv = spec_encode_chunk(e.1.0);
    let ln = spec_u64_to_le_bytes(e.1.1 as u64);
    assert(spec_encode_entry(e) + rest =~= s0 + (s1 + (cv + (ln + rest))));
    lemma_parse_string_of_encode(e.0.0, s1 + (cv + (ln + rest)));
    lemma_parse_string_of_encode(e.0.1, cv + (ln + rest));
    lemma_parse_chunk_of_encode(e.1.0, ln + rest);
    lemma_parse_u64_of_encode(e.1.1 as u64, rest);
    assert(e == ((e.0.0, e.0.1), (e.1.0, e.1.1)));
}

proof fn lemma_parse_entries_of_encode(es: Seq<EntryModel>, rest: Seq<u8>)
    requires
        forall|k: int| 0 <= k < es.len() ==> entry_decodable(#[trigger] es[k]),
    ensures
        parse_entries(spec_encode_entries(es) + rest, es.len() as nat) == Some((es, rest)),
    decreases es.len(),
{
    if es.len() == 0 {
        assert(spec_encode_entries(es) + rest =~= rest);
        assert(es =~= Seq::<EntryModel>::empty());
    } else {
        let e = es.first();
        let tail = es.drop_first();
        assert(spec_encode_entries(es) + rest =~= spec_encode_entry(e) + (spec_encode_entries(tail)
            + rest));
        lemma_parse_entry_of_encode(e, spec_encode_entries(tail) + rest);
        assert(forall|k: int| 0 <= k < tail.len() ==> entry_bounded(#[trigger] tail[k]));
        lemma_parse_entries_of_encode(tail, rest);
        assert(seq![e] + tail =~= es);
    }
}

/// Codec round trip: any list of decodable entries — bounded, with non-empty
/// bucket runs, as every exported entry is — decodes from its own encoding.
pub proof fn lemma_codec_round_trip(es: Seq<EntryModel>)
    requires
        es.len() <= u64::MAX,
        forall|k: int| 0 <= k < es.len() ==> entry_decodable(#[trigger] es[k]),
    ensures
        spec_decode_storage(spec_encode_storage(es)) == Some(es),
{
    let middle = spec_u64_to_le_bytes(es.len() as u64) + spec_encode_entries(es);
    assert(spec_encode_storage(es) =~= spec_u64_to_le_bytes(FORMAT_VERSION) + middle);
    lemma_parse_u64_of_encode(FORMAT_VERSION, middle);
    lemma_parse_u64_of_encode(es.len() as u64, spec_encode_entries(es));
    assert(spec_encode_entries(es) + Seq::<u8>::empty() =~= spec_encode_entries(es));
    lemma_parse_entries_of_encode(es, Seq::empty());
}

/// Appending one entry to an encoded list appends its encoding.
proof fn lemma_encode_entries_snoc(es: Seq<EntryModel>, e: EntryModel)
    ensures
        spec_encode_entries(es.push(e)) == spec_encode_entries(es) + spec_encode_entry(e),
    decreases es.len(),
{
    let es2 = es.push(e);
    assert(es2.len() == es.len() + 1);
    if es.len() == 0 {
        assert(es2.first() == e);
        assert(es2.drop_first() =~= Seq::<EntryModel>::empty());
        assert(spec_encode_entries(es2) == spec_encode_entry(e) + spec_encode_entries(
            Seq::<EntryModel>::empty(),
        ));
        assert(spec_encode_entry(e) + Seq::<u8>::empty() =~= spec_encode_entry(e));
        assert(spec_encode_entries(es) + spec_encode_entry(e) =~= spec_encode_entry(e));
    } else {
        assert(es2.first() == es.first());
        assert(es2.drop_first() =~= es.drop_first().push(e));
        assert(spec_encode_entries(es2) == spec_encode_entry(es.first()) + spec_encode_entries(
            es.drop_first().push(e),
        ));
        lemma_encode_entries_snoc(es.drop_first(), e);
        assert(spec_encode_entry(es.first()) + (spec_encode_entries(es.drop_first())
            + spec_encode_entry(e)) =~= spec_encode_entries(es) + spec_encode_entry(e));
    }
}

/// Appends a byte slice.
fn push_slice(out: &mut Vec<u8>, b: &[u8])
    ensures
        final(out)@ == old(out)@ + b@,
{
    let n = b.len();
    let mut i: usize = 0;
    proof {
        assert(out@ =~= old(out)@ + b@.take(0));
    }
    while i < n
        invariant
            n == b@.len(),
            i <= n,
            out@ == old(out)@ + b@.take(i as int),
        decreases n - i,
    {
        let x = *slice_index_get(b, i);
        out.push(x);
        proof {
            assert(b@.take(i as int).push(b@[i as int]) =~= b@.take(i as int + 1));
            assert(out@ =~= old(out)@ + b@.take(i as int + 1));
        }
        i += 1;
    }
    proof {
        assert(b@.take(n as int) =~= b@);
    }
}

/// Appends a `u64`, little endian.
fn push_u64(out: &mut Vec<u8>, x: u64)
    ensures
        final(out)@ == old(out)@ + spec_u64_to_le_bytes(x),
{
    let bytes = u64_to_le_bytes(x);
    push_slice(out, bytes.as_slice());
}

/// Appends a length-prefixed byte run.
fn push_chunk(out: &mut Vec<u8>, b: &[u8])
    ensures
        final(out)@ == old(out)@ + spec_encode_chunk(b@),
        b@.len() <= u64::MAX,
{
    push_u64(out, b.len() as u64);
    push_slice(out, b);
    proof {
        assert(old(out)@ + spec_u64_to_le_bytes(b@.len() as u64) + b@ =~= old(out)@
            + spec_encode_chunk(b@));
    }
}

/// Encodes the full entry list as one blob. When every entry's bucket run is
/// non-empty — true of every exported filter — the blob decodes back to
/// exactly the models of the given entries.
pub fn encode_storage(entries: &Vec<(PostId, ExportedFilter)>) -> (r: Vec<u8>)
    ensures
        r@ == spec_encode_storage(entries_view(entries@)),
        (forall|k: int|
            0 <= k < entries@.len() ==> 0 < (#[trigger] entries@[k]).1.values@.len())
            ==> spec_decode_storage(r@) == Some(entries_view(entries@)),
{
    let ghost es = entries_view(entries@);
    let mut out: Vec<u8> = Vec::new();
    push_u64(&mut out, FORMAT_VERSION);
    push_u64(&mut out, entries.len() as u64);
    let ghost header = spec_u64_to_le_bytes(FORMAT_VERSION) + spec_u64_to_le_bytes(
        entries@.len() as u64,
    );
    proof {
        assert(out@ =~= header + spec_encode_entries(es.take(0)));
    }
    let n = entries.len();
    let mut i: usize = 0;
    while i < n
        invariant
            n == entries@.len(),
            i <= n,
            es == entries_view(entries@),
            es.len() == n,
            out@ == header + spec_encode_entries(es.take(i as int)),
            forall|k: int| 0 <= k < i ==> entry_bounded(#[trigger] es[k]),
        decreases n - i,
    {
        let e = &entries[i];
        let ghost pre = out@;
        push_chunk(&mut out, e.0.0.as_str().as_bytes());
        push_chunk(&mut out, e.0.1.as_str().as_bytes());
        push_chunk(&mut out, e.1.values.as_slice());
        push_u64(&mut out, e.1.length as u64);
        proof {
            assert(es[i as int] == entry_view(entries@[i as int]));
            assert(entry_bounded(es[i as int]));
            assert(out@ =~= pre + spec_encode_entry(es[i as int]));
            lemma_encode_entries_snoc(es.take(i as int), es[i as int]);
            assert(es.take(i as int).push(es[i as int]) =~= es.take(i as int + 1));
            assert(out@ =~= header + spec_encode_entries(es.take(i as int + 1)));
        }
        i += 1;
    }
    proof {
        assert(es.take(n as int) =~= es);
        assert(out@ =~= spec_encode_storage(es));
        if forall|k: int|
            0 <= k < entries@.len() ==> 0 < (#[trigger] entries@[k]).1.values@.len() {
            assert forall|k: int| 0 <= k < es.len() implies entry_decodable(#[trigger] es[k]) by {
                assert(es[k] == entry_view(entries@[k]));
                assert(0 < entries@[k].1.values@.len());
            }
            lemma_codec_round_trip(es);
        }
    }
    out
}

/// Relies on `String::from_utf8` (std): it returns the string whose UTF-8
/// encoding is exactly the given bytes when they are valid UTF-8, and an
/// error otherwise.
#[verifier::external_body]
fn bytes_to_string(b: &[u8]) -> (r: Option<String>)
    ensures
        r is Some <==> valid_utf8(b@),
        r matches Some(s) ==> encode_utf8(s@) == b@,
{
    String::from_utf8(b.to_vec()).ok()
}

/// Reads a little-endian `u64` at `pos`.
fn read_u64(bytes: &[u8], pos: usize) -> (r: Option<(u64, usize)>)
    requires
        pos <= bytes@.len(),
    ensures
        match r {
            Some(xp) => pos <= xp.1 <= bytes@.len() && parse_u64(bytes@.skip(pos as int)) == Some(
                (xp.0, bytes@.skip(xp.1 as int)),
            ),
            None => parse_u64(bytes@.skip(pos as int)) is None,
        },
{
    if bytes.len() - pos >= 8 {
        let s = slice_subrange(bytes, pos, pos + 8);
        let x = u64_from_le_bytes(s);
        proof {
            assert(bytes@.skip(pos as int).take(8) =~= bytes@.subrange(pos as int, pos as int + 8));
            assert(bytes@.skip(pos as int).skip(8) =~= bytes@.skip(pos as int + 8));
        }
        Some((x, pos + 8))
    } else {
        None
    }
}

/// Reads a length-prefixed byte run at `pos`.
fn read_chunk(bytes: &[u8], pos: usize) -> (r: Option<(Vec<u8>, usize)>)
    requires
        pos <= bytes@.len(),
    ensures
        match r {
            Some(cp) => pos <= cp.1 <= bytes@.len() && parse_chunk(bytes@.skip(pos as int)) == Some(
                (cp.0@, bytes@.skip(cp.1 as int)),
            ),
            None => parse_chunk(bytes@.skip(pos as int)) is None,
        },
{
    match read_u64(bytes, pos) {
        None => None,
        Some((n, p1)) => {
            if n <= (bytes.len() - p1) as u64 {
                let end = p1 + (n as usize);
                let c = slice_to_vec(slice_subrange(bytes, p1, end));
                proof {
                    assert(bytes@.skip(p1 as int).take(n as int) =~= bytes@.subrange(
                        p1 as int,
                        end as int,
                    ));
                    assert(bytes@.skip(p1 as int).skip(n as int) =~= bytes@.skip(end as int));
                }
                Some((c, end))
            } else {
                None
            }
        },
    }
}

/// Reads a length-prefixed UTF-8 string at `pos`.
fn read_string(bytes: &[u8], pos: usize) -> (r: Option<(String, usize)>)
    requires
        pos <= bytes@.len(),
    ensures
        match r {
            Some(sp) => pos <= sp.1 <= bytes@.len() && parse_string(bytes@.skip(pos as int))
                == Some((sp.0@, bytes@.skip(sp.1 as int))),
            None => parse_string(bytes@.skip(pos as int)) is None,
        },
{
    match read_chunk(bytes, pos) {
        None => None,
        Some((c, p1)) => match bytes_to_string(c.as_slice()) {
            None => None,
            Some(s) => {
                proof {
                    encode_utf8_decode_utf8(s@);
                }
                Some((s, p1))
            },
        },
    }
}

/// Reads one entry at `pos`.
fn read_entry(bytes: &[u8], pos: usize) -> (r: Option<((PostId, ExportedFilter), usize)>)
    requires
        pos <= bytes@.len(),
    ensures
        match r {
            Some(ep) => pos <= ep.1 <= bytes@.len() && 0 < ep.0.1.values@.len() && parse_entry(
                bytes@.skip(pos as int),
            ) == Some((entry_view(ep.0), bytes@.skip(ep.1 as int))),
            None => parse_entry(bytes@.skip(pos as int)) is None,
        },
{
    match read_string(bytes, pos) {
        None => None,
        Some((id0, p1)) => match read_string(bytes, p1) {
            None => None,
            Some((id1, p2)) => match read_chunk(bytes, p2) {
                None => None,
                Some((vals, p3)) => match read_u64(bytes, p3) {
                    None => None,
                    Some((len, p4)) => {
                        if vals.len() > 0 && len <= usize::MAX as u64 {
                            let ef = ExportedFilter { values: vals, length: len as usize };
                            Some((((id0, id1), ef), p4))
                        } else {
                            None
                        }
                    },
                },
            },
        },
    }
}

/// Prefixing a parsed tail with already-decoded entries.
spec fn opt_prepend(pre: Seq<EntryModel>, o: Option<(Seq<EntryModel>, Seq<u8>)>) -> Option<
    (Seq<EntryModel>, Seq<u8>),
> {
    match o {
        Some(t) => Some((pre + t.0, t.1)),
        None => None,
    }
}

/// Decodes a blob, rejecting wrong versions, malformed or truncated runs,
/// and trailing bytes; on success the models of the result are exactly what
/// the blob decodes to.
pub fn decode_storage(bytes: &[u8]) -> (r: Result<Vec<(PostId, ExportedFilter)>, DecodeError>)
    ensures
        r is Ok <==> spec_decode_storage(bytes@) is Some,
        r matches Ok(v) ==> spec_decode_storage(bytes@) == Some(entries_view(v@)) && forall|k: int|
            0 <= k < v@.len() ==> 0 < (#[trigger] v@[k]).1.values@.len(),
        r matches Err(e) ==> e == spec_decode_err(bytes@),
{
    proof {
        assert(bytes@.skip(0) =~= bytes@);
    }
    let (ver, p0) = match read_u64(bytes, 0) {
        None => {
            return Err(DecodeError::Malformed);
        },
        Some(vp) => vp,
    };
    if ver != FORMAT_VERSION {
        return Err(DecodeError::UnsupportedVersion);
    }
    let (count, start) = match read_u64(bytes, p0) {
        None => {
            return Err(DecodeError::Malformed);
        },
        Some(cp) => cp,
    };
    let mut v: Vec<(PostId, ExportedFilter)> = Vec::new();
    let mut pos: usize = start;
    let mut done: u64 = 0;
    proof {
        assert(entries_view(v@) =~= Seq::<EntryModel>::empty());
        assert(opt_prepend(
            entries_view(v@),
            parse_entries(bytes@.skip(pos as int), (count - done) as nat),
        ) == parse_entries(bytes@.skip(start as int), count as nat));
        assert(parse_u64(bytes@) == Some((FORMAT_VERSION, bytes@.skip(p0 as int))));
    }
    while done < count
        invariant
            done <= count,
            pos <= bytes@.len(),
            start <= bytes@.len(),
            parse_u64(bytes@) == Some((FORMAT_VERSION, bytes@.skip(p0 as int))),
            parse_u64(bytes@.skip(p0 as int)) == Some((count, bytes@.skip(start as int))),
            parse_entries(bytes@.skip(start as int), count as nat) == opt_prepend(
                entries_view(v@),
                parse_entries(bytes@.skip(pos as int), (count - done) as nat),
            ),
            forall|k: int| 0 <= k < v@.len() ==> 0 < (#[trigger] v@[k]).1.values@.len(),
        decreases count - done,
    {
        match read_entry(bytes, pos) {
            None => {
                proof {
                    assert(parse_entries(bytes@.skip(pos as int), (count - done) as nat) is None);
                    assert(parse_entries(bytes@.skip(start as int), count as nat) is None);
                    assert(spec_decode_storage(bytes@) is None);
                    assert(spec_decode_err(bytes@) == DecodeError::Malformed);
                }
                return Err(DecodeError::Malformed);
            },
            Some((entry, p2)) => {
                let ghost prev = v@;
                let ghost ev = entry_view(entry);
                v.push(entry);
                proof {
                    let m = (count - done) as nat;
                    let tail = parse_entries(bytes@.skip(p2 as int), (m - 1) as nat);
                    assert(parse_entries(bytes@.skip(pos as int), m) == opt_prepend(
                        seq![ev],
                        tail,
                    ));
                    assert(entries_view(v@) =~= entries_view(prev).push(ev));
                    match tail {
                        Some(t) => {
                            assert(entries_view(prev) + (seq![ev] + t.0) =~= entries_view(v@)
                                + t.0);
                        },
                        None => {},
                    }
                }
                pos = p2;
                done = done + 1;
            },
        }
    }
    proof {
        assert(parse_entries(bytes@.skip(pos as int), 0) == Some(
            (Seq::<EntryModel>::empty(), bytes@.skip(pos as int)),
        ));
        assert(entries_view(v@) + Seq::<EntryModel>::empty() =~= entries_view(v@));
    }
    if pos == bytes.len() {
        proof {
            assert(bytes@.skip(pos as int).len() == 0);
            assert(spec_decode_storage(bytes@) == Some(entries_view(v@)));
        }
        Ok(v)
    } else {
        proof {
            assert(bytes@.skip(pos as int).len() != 0);
        }
        Err(DecodeError::Malformed)
    }
}

} // verus!
