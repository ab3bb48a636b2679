//! The serialized index: one binary snapshot of the whole metadata index.
//!
//! The snapshot is a single definite-length CBOR map from recipe name (text
//! string) to next sequence number (unsigned integer), every header in its
//! minimal-length form.  [`spec_index_bytes`] gives the exact bytes written
//! for an entry sequence and [`spec_parse_index`] the exact result of
//! reading them back; encoding then parsing hands the entries back
//! unchanged ([`lemma_parse_index_of_encode`]).

use vstd::prelude::*;
use crate::index::MetaEntry;
use crate::index::entry_views;
use vstd::utf8::encode_utf8;
use vstd::utf8::decode_utf8;
use vstd::utf8::valid_utf8;
use vstd::utf8::encode_utf8_valid_utf8;
use vstd::utf8::encode_utf8_decode_utf8;
use vstd::arithmetic::div_mod::lemma_fundamental_div_mod;

verus! {

/// 256 to the power `k`: the number of values `k` bytes can hold.
pub open spec fn pow256(k: nat) -> nat
    decreases k,
{
    if k == 0 {
        1
    } else {
        256 * pow256((k - 1) as nat)
    }
}

/// The big-endian `k`-byte encoding of `n` (mod 256^k).
pub open spec fn spec_be_bytes(n: nat, k: nat) -> Seq<u8>
    decreases k,
{
    if k == 0 {
        Seq::empty()
    } else {
        spec_be_bytes(n / 256, (k - 1) as nat).push((n % 256) as u8)
    }
}

/// The value a big-endian byte string stands for.
pub open spec fn spec_be_val(b: Seq<u8>) -> nat
    decreases b.len(),
{
    if b.len() == 0 {
        0
    } else {
        (spec_be_val(b.drop_last()) * 256 + b.last()) as nat
    }
}

/// The minimal-length CBOR header with major type `major` and value `n`.
pub open spec fn spec_header(major: nat, n: nat) -> Seq<u8>
    recommends
        major <= 7,
        n < pow256(8),
{
    if n < 24 {
        seq![(major * 32 + n) as u8]
    } else if n < 256 {
        seq![(major * 32 + 24) as u8, n as u8]
    } else if n < 65536 {
        seq![(major * 32 + 25) as u8] + spec_be_bytes(n, 2)
    } else if n < 4294967296 {
        seq![(major * 32 + 26) as u8] + spec_be_bytes(n, 4)
    } else {
        seq![(major * 32 + 27) as u8] + spec_be_bytes(n, 8)
    }
}

/// The bytes of one map entry: a text-string key and an unsigned value.
pub open spec fn spec_entry_bytes(name: Seq<char>, id: u32) -> Seq<u8> {
    spec_header(3, encode_utf8(name).len()) + encode_utf8(name) + spec_header(0, id as nat)
}

/// The bytes of the entries, in order.
pub open spec fn spec_entries_bytes(es: Seq<(Seq<char>, u32)>) -> Seq<u8>
    decreases es.len(),
{
    if es.len() == 0 {
        Seq::empty()
    } else {
        spec_entry_bytes(es[0].0, es[0].1) + spec_entries_bytes(es.drop_first())
    }
}

/// The whole snapshot: a definite-length map header, then the entries.
pub open spec fn spec_index_bytes(es: Seq<(Seq<char>, u32)>) -> Seq<u8> {
    spec_header(5, es.len()) + spec_entries_bytes(es)
}

/// What parsing one header from the front of `b` yields: the major type,
/// the value, and how many bytes the header took.  Only the minimal-length
/// form is accepted, so a value has exactly one encoding.
pub open spec fn spec_parse_header(b: Seq<u8>) -> Option<(nat, nat, int)> {
    if b.len() == 0 {
        None
    } else {
        let major = b[0] / 32;
        let minor = b[0] % 32;
        if minor < 24 {
            Some((major as nat, minor as nat, 1))
        } else if minor == 24 {
            if b.len() >= 2 && b[1] >= 24 {
                Some((major as nat, b[1] as nat, 2))
            } else {
                None
            }
        } else if minor == 25 {
            if b.len() >= 3 && spec_be_val(b.subrange(1, 3)) >= 256 {
                Some((major as nat, spec_be_val(b.subrange(1, 3)), 3))
            } else {
                None
            }
        } else if minor == 26 {
            if b.len() >= 5 && spec_be_val(b.subrange(1, 5)) >= 65536 {
                Some((major as nat, spec_be_val(b.subrange(1, 5)), 5))
            } else {
                None
            }
        } else if minor == 27 {
            if b.len() >= 9 && spec_be_val(b.subrange(1, 9)) >= 4294967296 {
                Some((major as nat, spec_be_val(b.subrange(1, 9)), 9))
            } else {
                None
            }
        } else {
            None
        }
    }
}

/// What parsing one map entry (text key, then unsigned value) from the
/// front of `b` yields: the entry and how many bytes it took.
pub open spec fn spec_parse_entry(b: Seq<u8>) -> Option<((Seq<char>, u32), int)> {
    match spec_parse_header(b) {
        Some((kmajor, klen, c1)) => {
            if kmajor == 3 && c1 + klen <= b.len() {
                let kb = b.subrange(c1, c1 + klen);
                if valid_utf8(kb) {
                    let rest = b.skip(c1 + klen);
                    match spec_parse_header(rest) {
                        Some((vmajor, v, c2)) => {
                            if vmajor == 0 && v <= u32::MAX {
                                Some(((decode_utf8(kb), v as u32), c1 + klen + c2))
                            } else {
                                None
                            }
                        },
                        None => None,
                    }
                } else {
                    None
                }
            } else {
                None
            }
        },
        None => None,
    }
}

/// What parsing `n` map entries from the front of `b` yields: the entries
/// and how many bytes they took.
pub open spec fn spec_parse_entries(b: Seq<u8>, n: nat) -> Option<(Seq<(Seq<char>, u32)>, int)>
    decreases n,
{
    if n == 0 {
        Some((Seq::empty(), 0))
    } else {
        match spec_parse_entry(b) {
            Some((e, c)) => {
                match spec_parse_entries(b.skip(c), (n - 1) as nat) {
                    Some((es, c2)) => Some((seq![e] + es, c + c2)),
                    None => None,
                }
            },
            None => None,
        }
    }
}

/// What parsing a whole snapshot yields: a definite-length map header,
/// exactly that many entries, and nothing after them.
pub open spec fn spec_parse_index(b: Seq<u8>) -> Option<Seq<(Seq<char>, u32)>> {
    match spec_parse_header(b) {
        Some((major, n, c)) => {
            if major == 5 {
                match spec_parse_entries(b.skip(c), n) {
                    Some((es, c2)) => if c + c2 == b.len() {
                        Some(es)
                    } else {
                        None
                    },
                    None => None,
                }
            } else {
                None
            }
        },
        None => None,
    }
}

/// The byte-count powers the format uses.
proof fn lemma_pow256_values()
    ensures
        pow256(1) == 0x100,
        pow256(2) == 0x10000,
        pow256(4) == 0x1_0000_0000,
        pow256(8) == 0x1_0000_0000_0000_0000,
{
    assert(pow256(0) == 1);
    assert(pow256(1) == 256);
    assert(pow256(2) == 65536);
    assert(pow256(3) == 16777216);
    assert(pow256(4) == 4294967296);
    assert(pow256(5) == 1099511627776);
    assert(pow256(6) == 281474976710656);
    assert(pow256(7) == 72057594037927936);
    assert(pow256(8) == 18446744073709551616);
}

fn write_be_bytes(out: &mut Vec<u8>, n: u64, k: usize)
    ensures
        final(out)@ == old(out)@ + spec_be_bytes(n as nat, k as nat),
    decreases k,
{
    if k == 0 {
        proof {
            assert(out@ =~= out@ + spec_be_bytes(n as nat, 0));
        }
    } else {
        write_be_bytes(out, n / 256, k - 1);
        out.push((n % 256) as u8);
        proof {
            assert(out@ =~= old(out)@ + spec_be_bytes(n as nat, k as nat));
        }
    }
}

fn write_header(out: &mut Vec<u8>, major: u8, n: u64)
    requires
        major <= 7,
    ensures
        final(out)@ == old(out)@ + spec_header(major as nat, n as nat),
{
    if n < 24 {
        out.push(major * 32 + n as u8);
        proof {
            assert(out@ =~= old(out)@ + spec_header(major as nat, n as nat));
        }
    } else if n < 256 {
        out.push(major * 32 + 24);
        out.push(n as u8);
        proof {
            assert(out@ =~= old(out)@ + spec_header(major as nat, n as nat));
        }
    } else if n < 65536 {
        out.push(major * 32 + 25);
        write_be_bytes(out, n, 2);
        proof {
            assert(out@ =~= old(out)@ + spec_header(major as nat, n as nat));
        }
    } else if n < 4294967296 {
        out.push(major * 32 + 26);
        write_be_bytes(out, n, 4);
        proof {
            assert(out@ =~= old(out)@ + spec_header(major as nat, n as nat));
        }
    } else {
        out.push(major * 32 + 27);
        write_be_bytes(out, n, 8);
        proof {
            lemma_pow256_values();
            assert(out@ =~= old(out)@ + spec_header(major as nat, n as nat));
        }
    }
}

/// One encoded entry appended to the end of an entry sequence.
proof fn lemma_entries_bytes_snoc(es: Seq<(Seq<char>, u32)>, n: int)
    requires
        0 <= n < es.len(),
    ensures
        spec_entries_bytes(es.take(n + 1)) == spec_entries_bytes(es.take(n)) + spec_entry_bytes(
            es[n].0,
            es[n].1,
        ),
    decreases n,
{
    if n == 0 {
        assert(es.take(1).drop_first() =~= es.take(0));
        assert(spec_entries_bytes(es.take(1)) =~= spec_entries_bytes(es.take(0)) + spec_entry_bytes(
            es[0].0,
            es[0].1,
        ));
    } else {
        let tail = es.drop_first();
        lemma_entries_bytes_snoc(tail, n - 1);
        assert(es.take(n + 1).drop_first() =~= tail.take(n));
        assert(es.take(n).drop_first() =~= tail.take(n - 1));
        assert(es.take(n + 1)[0] == es[0]);
        assert(es.take(n)[0] == es[0]);
        assert(tail[n - 1] == es[n]);
        assert(spec_entry_bytes(es[0].0, es[0].1) + (spec_entries_bytes(tail.take(n - 1))
            + spec_entry_bytes(es[n].0, es[n].1)) =~= (spec_entry_bytes(es[0].0, es[0].1)
            + spec_entries_bytes(tail.take(n - 1))) + spec_entry_bytes(es[n].0, es[n].1));
    }
}

/// Encodes the entries as the snapshot's bytes.
pub fn encode_entries(entries: &Vec<MetaEntry>) -> (r: Vec<u8>)
    ensures
        r@ == spec_index_bytes(entry_views(entries@)),
{
    let ghost es = entry_views(entries@);
    let mut out: Vec<u8> = Vec::new();
    write_header(&mut out, 5, entries.len() as u64);
    let n = entries.len();
    let mut i: usize = 0;
    while i < n
        invariant
            i <= n,
            n == entries@.len(),
            es == entry_views(entries@),
            out@ == spec_header(5, es.len()) + spec_entries_bytes(es.take(i as int)),
        decreases n - i,
    {
        let e = &entries[i];
        let bs = e.name.as_str().as_bytes();
        write_header(&mut out, 3, bs.len() as u64);
        out.extend_from_slice(bs);
        write_header(&mut out, 0, e.next_id as u64);
        proof {
            lemma_entries_bytes_snoc(es, i as int);
            assert(es[i as int].0 == entries@[i as int].name@);
            assert(es[i as int].1 == entries@[i as int].next_id);
            assert(out@ =~= spec_header(5, es.len()) + spec_entries_bytes(es.take(i + 1)));
        }
        i += 1;
    }
    proof {
        assert(es.take(n as int) =~= es);
    }
    out
}

proof fn lemma_pow256_pos(k: nat)
    ensures
        pow256(k) >= 1,
    decreases k,
{
    if k > 0 {
        lemma_pow256_pos((k - 1) as nat);
    }
}

proof fn lemma_pow256_increases(a: nat, b: nat)
    requires
        a <= b,
    ensures
        pow256(a) <= pow256(b),
    decreases b,
{
    if a < b {
        lemma_pow256_increases(a, (b - 1) as nat);
        lemma_pow256_pos((b - 1) as nat);
    }
}

fn read_be(b: &[u8], pos: usize, k: usize) -> (v: u64)
    requires
        pos + k <= b@.len(),
        k <= 8,
    ensures
        v as nat == spec_be_val(b@.subrange(pos as int, pos + k)),
        (v as nat) < pow256(k as nat),
    decreases k,
{
    if k == 0 {
        proof {
            assert(b@.subrange(pos as int, pos as int) =~= Seq::<u8>::empty());
        }
        0
    } else {
        let hi = read_be(b, pos, k - 1);
        proof {
            lemma_pow256_increases((k - 1) as nat, 7);
            lemma_pow256_values();
            assert(pow256(7) == 72057594037927936);
        }
        let n = b.len();
        proof {
            assert(pos + k <= n);
        }
        let byte = b[pos + (k - 1)];
        let v = hi * 256 + byte as u64;
        proof {
            let s = b@.subrange(pos as int, pos + k);
            assert(s.drop_last() =~= b@.subrange(pos as int, pos + (k - 1)));
            assert(s.last() == b@[pos + (k - 1)]);
        }
        v
    }
}

fn read_header(b: &[u8], pos: usize) -> (r: Option<(u8, u64, usize)>)
    requires
        pos <= b@.len(),
    ensures
        match r {
            Some(h) => {
                &&& spec_parse_header(b@.skip(pos as int)) == Some(
                    (h.0 as nat, h.1 as nat, h.2 - pos),
                )
                &&& h.0 <= 7
                &&& pos < h.2 <= b@.len()
            },
            None => spec_parse_header(b@.skip(pos as int)) is None,
        },
{
    let ghost tail = b@.skip(pos as int);
    let n = b.len();
    if pos >= n {
        return None;
    }
    let first = b[pos];
    proof {
        assert(tail[0] == b@[pos as int]);
    }
    let major = first / 32;
    let minor = first % 32;
    if minor < 24 {
        Some((major, minor as u64, pos + 1))
    } else if minor == 24 {
        if n - pos >= 2 {
            let v = b[pos + 1];
            proof {
                assert(tail[1] == b@[pos + 1]);
            }
            if v >= 24 {
                Some((major, v as u64, pos + 2))
            } else {
                None
            }
        } else {
            None
        }
    } else if minor == 25 {
        if n - pos >= 3 {
            let v = read_be(b, pos + 1, 2);
            proof {
                assert(b@.subrange(pos + 1, pos + 3) =~= tail.subrange(1, 3));
            }
            if v >= 256 {
                Some((major, v, pos + 3))
            } else {
                None
            }
        } else {
            None
        }
    } else if minor == 26 {
        if n - pos >= 5 {
            let v = read_be(b, pos + 1, 4);
            proof {
                assert(b@.subrange(pos + 1, pos + 5) =~= tail.subrange(1, 5));
            }
            if v >= 65536 {
                Some((major, v, pos + 5))
            } else {
                None
            }
        } else {
            None
        }
    } else if minor == 27 {
        if n - pos >= 9 {
            let v = read_be(b, pos + 1, 8);
            proof {
                assert(b@.subrange(pos + 1, pos + 9) =~= tail.subrange(1, 9));
            }
            if v >= 4294967296 {
                Some((major, v, pos + 9))
            } else {
                None
            }
        } else {
            None
        }
    } else {
        None
    }
}

/// Relies on String::from_utf8: succeeds exactly on valid UTF-8 input and
/// returns the string made of those bytes.
#[verifier::external_body]
fn string_from_utf8(bytes: Vec<u8>) -> (r: Option<String>)
    ensures
        r is Some <==> valid_utf8(bytes@),
        r is Some ==> r.unwrap()@ == decode_utf8(bytes@),
{
    String::from_utf8(bytes).ok()
}

fn parse_entry(b: &[u8], pos: usize) -> (r: Option<(MetaEntry, usize)>)
    requires
        pos <= b@.len(),
    ensures
        match r {
            Some(t) => {
                &&& spec_parse_entry(b@.skip(pos as int)) == Some(
                    ((t.0.name@, t.0.next_id), t.1 - pos),
                )
                &&& pos < t.1 <= b@.len()
            },
            None => spec_parse_entry(b@.skip(pos as int)) is None,
        },
{
    let ghost body = b@.skip(pos as int);
    proof {
        assert(body.len() == b@.len() - pos);
    }
    let kh = read_header(b, pos);
    let (kmajor, klen64, kpos) = match kh {
        Some(t) => t,
        None => {
            return None;
        },
    };
    if kmajor != 3 {
        return None;
    }
    let rem = b.len() - kpos;
    if klen64 > rem as u64 {
        return None;
    }
    let klen = klen64 as usize;
    let kend = kpos + klen;
    let kb = vstd::slice::slice_to_vec(&b[kpos..kend]);
    let ghost kbv = kb@;
    proof {
        assert(kbv =~= body.subrange(kpos - pos, kpos - pos + klen64 as nat));
    }
    let name = match string_from_utf8(kb) {
        Some(s) => s,
        None => {
            return None;
        },
    };
    let vh = read_header(b, kend);
    proof {
        assert(b@.skip(kend as int) =~= body.skip(kpos - pos + klen64 as nat));
    }
    let (vmajor, v, vpos) = match vh {
        Some(t) => t,
        None => {
            return None;
        },
    };
    if vmajor != 0 || v > 0xffff_ffff {
        return None;
    }
    proof {
        assert(name@ == decode_utf8(kbv));
    }
    Some((MetaEntry { name, next_id: v as u32 }, vpos))
}

/// The parse of what remains, composed with what is already read, is the
/// parse of all the entries.
spec fn compose_parse(
    b: Seq<u8>,
    pos0: int,
    count: nat,
    pos: int,
    i: nat,
    sofar: Seq<(Seq<char>, u32)>,
) -> bool {
    &&& i <= count
    &&& spec_parse_entries(b.skip(pos0), count) == (match spec_parse_entries(
        b.skip(pos),
        (count - i) as nat,
    ) {
        Some(t) => Some((sofar + t.0, pos - pos0 + t.1)),
        None => None::<(Seq<(Seq<char>, u32)>, int)>,
    })
}

proof fn lemma_compose_none(
    b: Seq<u8>,
    pos0: int,
    count: nat,
    pos: int,
    i: nat,
    sofar: Seq<(Seq<char>, u32)>,
)
    requires
        compose_parse(b, pos0, count, pos, i, sofar),
        i < count,
        spec_parse_header(b) == Some((5 as nat, count, pos0)),
        spec_parse_entry(b.skip(pos)) is None,
    ensures
        spec_parse_index(b) is None,
{
    assert(spec_parse_entries(b.skip(pos), (count - i) as nat) is None);
}

proof fn lemma_compose_step(
    b: Seq<u8>,
    pos0: int,
    count: nat,
    i: nat,
    sofar: Seq<(Seq<char>, u32)>,
    mid: int,
    c: int,
    ev: (Seq<char>, u32),
)
    requires
        i < count,
        compose_parse(b, pos0, count, mid, i, sofar),
        spec_parse_entry(b.skip(mid)) == Some((ev, c)),
        0 <= pos0 <= mid,
        0 < c,
        mid + c <= b.len(),
    ensures
        compose_parse(b, pos0, count, mid + c, (i + 1) as nat, sofar + seq![ev]),
{
    let m = (count - i) as nat;
    assert(b.skip(mid).skip(c) =~= b.skip(mid + c));
    let inner = spec_parse_entries(b.skip(mid + c), (count - (i + 1)) as nat);
    assert(spec_parse_entries(b.skip(mid), m) == (match inner {
        Some(t) => Some((seq![ev] + t.0, c + t.1)),
        None => None::<(Seq<(Seq<char>, u32)>, int)>,
    }));
    if inner is Some {
        let t = inner.unwrap();
        assert((sofar + (seq![ev] + t.0)) =~= ((sofar + seq![ev]) + t.0));
    }
}

proof fn lemma_compose_done(
    b: Seq<u8>,
    pos0: int,
    count: nat,
    pos: int,
    sofar: Seq<(Seq<char>, u32)>,
)
    requires
        compose_parse(b, pos0, count, pos, count, sofar),
        spec_parse_header(b) == Some((5 as nat, count, pos0)),
        0 <= pos0 <= pos <= b.len(),
    ensures
        pos == b.len() ==> spec_parse_index(b) == Some(sofar),
        pos != b.len() ==> spec_parse_index(b) is None,
{
    assert(spec_parse_entries(b.skip(pos), 0) == Some((Seq::<(Seq<char>, u32)>::empty(), 0int)));
    assert(sofar + Seq::<(Seq<char>, u32)>::empty() =~= sofar);
}

/// Decodes a snapshot back into its entry list, exactly as
/// [`spec_parse_index`] reads it; `None` on any malformed byte.
pub fn decode_index(b: &[u8]) -> (r: Option<Vec<MetaEntry>>)
    ensures
        match r {
            Some(es) => spec_parse_index(b@) == Some(entry_views(es@)),
            None => spec_parse_index(b@) is None,
        },
{
    proof {
        assert(b@.skip(0) =~= b@);
    }
    let h = read_header(b, 0);
    let (major, count, pos0) = match h {
        Some(t) => t,
        None => {
            return None;
        },
    };
    if major != 5 {
        return None;
    }
    let mut out: Vec<MetaEntry> = Vec::new();
    let mut pos: usize = pos0;
    let mut i: u64 = 0;
    proof {
        assert(entry_views(out@) =~= Seq::<(Seq<char>, u32)>::empty());
        assert(compose_parse(b@, pos0 as int, count as nat, pos as int, i as nat, entry_views(out@)))
            by {
            if spec_parse_entries(b@.skip(pos0 as int), count as nat) is Some {
                let t = spec_parse_entries(b@.skip(pos0 as int), count as nat).unwrap();
                assert(entry_views(out@) + t.0 =~= t.0);
            }
        }
    }
    while i < count
        invariant
            i <= count,
            pos0 <= pos <= b@.len(),
            spec_parse_header(b@) == Some((5 as nat, count as nat, pos0 as int)),
            compose_parse(b@, pos0 as int, count as nat, pos as int, i as nat, entry_views(out@)),
        decreases count - i,
    {
        let ghost sofar = entry_views(out@);
        let ghost mid = pos as int;
        let pe = parse_entry(b, pos);
        let (entry, newpos) = match pe {
            Some(t) => t,
            None => {
                proof {
                    lemma_compose_none(b@, pos0 as int, count as nat, mid, i as nat, sofar);
                }
                return None;
            },
        };
        let ghost ev = (entry.name@, entry.next_id);
        out.push(entry);
        pos = newpos;
        i = i + 1;
        proof {
            assert(entry_views(out@) =~= sofar + seq![ev]);
            lemma_compose_step(
                b@,
                pos0 as int,
                count as nat,
                (i - 1) as nat,
                sofar,
                mid,
                newpos - mid,
                ev,
            );
        }
    }
    if pos != b.len() {
        proof {
            lemma_compose_done(b@, pos0 as int, count as nat, pos as int, entry_views(out@));
        }
        return None;
    }
    proof {
        lemma_compose_done(b@, pos0 as int, count as nat, pos as int, entry_views(out@));
    }
    Some(out)
}

/// A `k`-byte big-endian encoding holds `k` bytes and decodes to its value.
proof fn lemma_be_val_of_be_bytes(n: nat, k: nat)
    requires
        n < pow256(k),
    ensures
        spec_be_bytes(n, k).len() == k,
        spec_be_val(spec_be_bytes(n, k)) == n,
    decreases k,
{
    if k == 0 {
    } else {
        let q = n / 256;
        assert(q < pow256((k - 1) as nat)) by (nonlinear_arith)
            requires
                n < 256 * pow256((k - 1) as nat),
                q == n / 256,
        ;
        lemma_be_val_of_be_bytes(q, (k - 1) as nat);
        let s = spec_be_bytes(n, k);
        assert(s.drop_last() =~= spec_be_bytes(q, (k - 1) as nat));
        assert(s.last() == (n % 256) as u8);
        lemma_fundamental_div_mod(n as int, 256);
    }
}

/// Parsing a minimal-length header, with anything after it, yields exactly
/// the major type and value it was written for.
proof fn lemma_parse_header_of_header(major: nat, n: nat, rest: Seq<u8>)
    requires
        major <= 7,
        n < pow256(8),
    ensures
        spec_parse_header(spec_header(major, n) + rest) == Some(
            (major, n, spec_header(major, n).len() as int),
        ),
{
    lemma_pow256_values();
    let h = spec_header(major, n);
    let b = h + rest;
    if n < 24 {
        assert(b[0] == (major * 32 + n) as u8);
        assert((major * 32 + n) / 32 == major && (major * 32 + n) % 32 == n) by (nonlinear_arith)
            requires
                major <= 7,
                n < 24,
        ;
    } else if n < 256 {
        assert(b[0] == (major * 32 + 24) as u8);
        assert((major * 32 + 24) / 32 == major && (major * 32 + 24) % 32 == 24) by (nonlinear_arith)
            requires
                major <= 7,
        ;
        assert(b[1] == n as u8);
    } else if n < 65536 {
        assert(b[0] == (major * 32 + 25) as u8);
        assert((major * 32 + 25) / 32 == major && (major * 32 + 25) % 32 == 25) by (nonlinear_arith)
            requires
                major <= 7,
        ;
        lemma_be_val_of_be_bytes(n, 2);
        assert(b.subrange(1, 3) =~= spec_be_bytes(n, 2));
        assert(b.len() >= 3);
    } else if n < 4294967296 {
        assert(b[0] == (major * 32 + 26) as u8);
        assert((major * 32 + 26) / 32 == major && (major * 32 + 26) % 32 == 26) by (nonlinear_arith)
            requires
                major <= 7,
        ;
        lemma_be_val_of_be_bytes(n, 4);
        assert(b.subrange(1, 5) =~= spec_be_bytes(n, 4));
        assert(b.len() >= 5);
    } else {
        assert(b[0] == (major * 32 + 27) as u8);
        assert((major * 32 + 27) / 32 == major && (major * 32 + 27) % 32 == 27) by (nonlinear_arith)
            requires
                major <= 7,
        ;
        lemma_be_val_of_be_bytes(n, 8);
        assert(b.subrange(1, 9) =~= spec_be_bytes(n, 8));
        assert(b.len() >= 9);
    }
}

/// Parsing an encoded entry, with anything after it, yields the entry back.
proof fn lemma_parse_entry_of_encode(name: Seq<char>, id: u32, rest: Seq<u8>)
    requires
        encode_utf8(name).len() < pow256(8),
    ensures
        spec_parse_entry(spec_entry_bytes(name, id) + rest) == Some(
            ((name, id), spec_entry_bytes(name, id).len() as int),
        ),
{
    lemma_pow256_values();
    let kb = encode_utf8(name);
    let klen = kb.len();
    let h3 = spec_header(3, klen);
    let h0 = spec_header(0, id as nat);
    let eb = spec_entry_bytes(name, id);
    let b = eb + rest;
    assert(b =~= h3 + (kb + (h0 + rest)));
    lemma_parse_header_of_header(3, klen, kb + (h0 + rest));
    let c1 = h3.len() as int;
    assert(spec_parse_header(b) == Some((3 as nat, klen, c1)));
    assert(b.subrange(c1, c1 + klen) =~= kb);
    encode_utf8_valid_utf8(name);
    encode_utf8_decode_utf8(name);
    assert(b.skip(c1 + klen) =~= h0 + rest);
    lemma_parse_header_of_header(0, id as nat, rest);
    assert(spec_parse_header(b.skip(c1 + klen)) == Some((0 as nat, id as nat, h0.len() as int)));
    assert(eb.len() == h3.len() + kb.len() + h0.len());
}

/// Parsing the encoded entry run, with anything after it, yields the
/// entries back.
proof fn lemma_parse_entries_of_encode(es: Seq<(Seq<char>, u32)>, rest: Seq<u8>)
    requires
        forall|i: int| 0 <= i < es.len() ==> encode_utf8(#[trigger] es[i].0).len() < pow256(8),
    ensures
        spec_parse_entries(spec_entries_bytes(es) + rest, es.len()) == Some(
            (es, spec_entries_bytes(es).len() as int),
        ),
    decreases es.len(),
{
    if es.len() == 0 {
        assert(spec_entries_bytes(es).len() == 0);
        assert(Seq::<(Seq<char>, u32)>::empty() =~= es);
    } else {
        let e = es[0];
        let tail = es.drop_first();
        let eb = spec_entry_bytes(e.0, e.1);
        let tb = spec_entries_bytes(tail);
        let b = spec_entries_bytes(es) + rest;
        assert(b =~= eb + (tb + rest));
        lemma_parse_entry_of_encode(e.0, e.1, tb + rest);
        assert((e.0, e.1) == e);
        assert(spec_parse_entry(b) == Some((e, eb.len() as int)));
        assert(b.skip(eb.len() as int) =~= tb + rest);
        assert(forall|i: int| 0 <= i < tail.len() ==> encode_utf8(#[trigger] tail[i].0).len()
            < pow256(8)) by {
            assert(forall|i: int| 0 <= i < tail.len() ==> tail[i] == es[i + 1]);
        }
        lemma_parse_entries_of_encode(tail, rest);
        assert(seq![e] + tail =~= es);
        assert(spec_entries_bytes(es).len() == eb.len() + tb.len());
    }
}

/// Reading a written snapshot back gives exactly the entries it was written
/// from: the reloaded index matches the in-memory index that was persisted.
pub proof fn lemma_parse_index_of_encode(es: Seq<(Seq<char>, u32)>)
    requires
        es.len() < pow256(8),
        forall|i: int| 0 <= i < es.len() ==> encode_utf8(#[trigger] es[i].0).len() < pow256(8),
    ensures
        spec_parse_index(spec_index_bytes(es)) == Some(es),
{
    let h = spec_header(5, es.len());
    let eb = spec_entries_bytes(es);
    let b = spec_index_bytes(es);
    lemma_parse_header_of_header(5, es.len(), eb);
    assert(b == h + eb);
    let c = h.len() as int;
    assert(spec_parse_header(b) == Some((5 as nat, es.len(), c)));
    assert(b.skip(c) =~= eb + Seq::<u8>::empty());
    lemma_parse_entries_of_encode(es, Seq::<u8>::empty());
    assert((eb + Seq::<u8>::empty()).len() == eb.len());
    assert(c + eb.len() == b.len());
}

} // verus!
