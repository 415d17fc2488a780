use vstd::prelude::*;

use crate::manifest::clone_bytes;
use crate::manifest::entries_of;
use crate::manifest::kv_unique;
use crate::manifest::lemma_kv_map_dom;
use crate::manifest::EntryMeta;
use crate::manifest::EntrySeq;
use crate::manifest::Manifest;

verus! {

use vstd::bytes::lemma_auto_spec_u64_to_from_le_bytes;
use vstd::bytes::spec_u64_from_le_bytes;
use vstd::bytes::spec_u64_to_le_bytes;
use vstd::bytes::u64_from_le_bytes;
use vstd::bytes::u64_to_le_bytes;
use vstd::slice::slice_subrange;
use vstd::slice::slice_to_vec;

/// On-disk form of one entry: length-prefixed name, length field,
/// length-prefixed digest. All integers are eight little-endian bytes.
pub open spec fn spec_encode_entry(name: Seq<u8>, meta: EntryMeta) -> Seq<u8> {
    spec_u64_to_le_bytes(name.len() as u64) + name + spec_u64_to_le_bytes(meta.0)
        + spec_u64_to_le_bytes(meta.1.len() as u64) + meta.1
}

pub open spec fn spec_encode_entries(es: EntrySeq) -> Seq<u8>
    decreases es.len(),
{
    if es.len() == 0 {
        Seq::empty()
    } else {
        spec_encode_entry(es[0].0, es[0].1) + spec_encode_entries(es.drop_first())
    }
}

/// On-disk form of a whole manifest: version, completeness flag, entry
/// count, then the entries.
pub open spec fn spec_encode(es: EntrySeq, version: u64, incomplete: bool) -> Seq<u8> {
    spec_u64_to_le_bytes(version) + seq![if incomplete { 1u8 } else { 0u8 }] + spec_u64_to_le_bytes(
        es.len() as u64,
    ) + spec_encode_entries(es)
}

/// Reads one entry from the front; yields it and the remaining bytes.
pub open spec fn spec_decode_entry(b: Seq<u8>) -> Option<((Seq<u8>, EntryMeta), Seq<u8>)> {
    if b.len() < 8 {
        None
    } else {
        let nlen = spec_u64_from_le_bytes(b.subrange(0, 8)) as int;
        if b.len() < 8 + nlen {
            None
        } else {
            let name = b.subrange(8, 8 + nlen);
            let b2 = b.skip(8 + nlen);
            if b2.len() < 16 {
                None
            } else {
                let length = spec_u64_from_le_bytes(b2.subrange(0, 8));
                let hlen = spec_u64_from_le_bytes(b2.subrange(8, 16)) as int;
                if b2.len() < 16 + hlen {
                    None
                } else {
                    Some(((name, (length, b2.subrange(16, 16 + hlen))), b2.skip(16 + hlen)))
                }
            }
        }
    }
}

/// Reads exactly `n` entries and demands that nothing is left over.
pub open spec fn spec_decode_entries(b: Seq<u8>, n: int) -> Option<EntrySeq>
    decreases n,
{
    if n <= 0 {
        if b.len() == 0 {
            Some(Seq::empty())
        } else {
            None
        }
    } else {
        match spec_decode_entry(b) {
            Some(p) => match spec_decode_entries(p.1, n - 1) {
                Some(es) => Some(seq![p.0] + es),
                None => None,
            },
            None => None,
        }
    }
}

/// Reads a whole manifest record back from its on-disk form.
pub open spec fn spec_decode(b: Seq<u8>) -> Option<(EntrySeq, u64, bool)> {
    if b.len() < 17 {
        None
    } else {
        let version = spec_u64_from_le_bytes(b.subrange(0, 8));
        let flag = b[8];
        let n = spec_u64_from_le_bytes(b.subrange(9, 17));
        if flag > 1 {
            None
        } else {
            match spec_decode_entries(b.skip(17), n as int) {
                Some(es) => Some((es, version, flag == 1)),
                None => None,
            }
        }
    }
}

proof fn lemma_decode_entries_len(b: Seq<u8>, n: int)
    ensures
        match spec_decode_entries(b, n) {
            Some(es) => es.len() == (if n >= 0 {
                n
            } else {
                0
            }),
            None => true,
        },
    decreases
            (if n > 0 {
                n
            } else {
                0
            }),
{
    if n > 0 {
        match spec_decode_entry(b) {
            Some(p) => {
                lemma_decode_entries_len(p.1, n - 1);
            },
            None => {},
        }
    }
}

proof fn lemma_encode_entry_round_trip(name: Seq<u8>, meta: EntryMeta, rest: Seq<u8>)
    requires
        name.len() <= u64::MAX,
        meta.1.len() <= u64::MAX,
    ensures
        spec_decode_entry(spec_encode_entry(name, meta) + rest) == Some(((name, meta), rest)),
{
    lemma_auto_spec_u64_to_from_le_bytes();
    let b = spec_encode_entry(name, meta) + rest;
    let na = spec_u64_to_le_bytes(name.len() as u64);
    let la = spec_u64_to_le_bytes(meta.0);
    let ha = spec_u64_to_le_bytes(meta.1.len() as u64);
    assert(b.subrange(0, 8) =~= na);
    assert(spec_u64_from_le_bytes(b.subrange(0, 8)) == name.len() as u64);
    let nlen = name.len() as int;
    assert(b.len() >= 8 + nlen);
    assert(b.subrange(8, 8 + nlen) =~= name);
    let b2 = b.skip(8 + nlen);
    assert(b2 =~= la + ha + meta.1 + rest);
    assert(b2.subrange(0, 8) =~= la);
    assert(b2.subrange(8, 16) =~= ha);
    assert(spec_u64_from_le_bytes(b2.subrange(8, 16)) == meta.1.len() as u64);
    let hlen = meta.1.len() as int;
    assert(b2.len() >= 16 + hlen);
    assert(b2.subrange(16, 16 + hlen) =~= meta.1);
    assert(b2.skip(16 + hlen) =~= rest);
}

proof fn lemma_encode_entries_round_trip(es: EntrySeq)
    requires
        es.len() <= u64::MAX,
        forall|i: int|
            0 <= i < es.len() ==> (#[trigger] es[i]).0.len() <= u64::MAX && es[i].1.1.len()
                <= u64::MAX,
    ensures
        spec_decode_entries(spec_encode_entries(es), es.len() as int) == Some(es),
    decreases es.len(),
{
    if es.len() == 0 {
        assert(spec_encode_entries(es).len() == 0);
        assert(spec_decode_entries(spec_encode_entries(es), 0) == Some(Seq::<(Seq<u8>,
            EntryMeta)>::empty()));
        assert(es =~= Seq::<(Seq<u8>, EntryMeta)>::empty());
    } else {
        let tail = es.drop_first();
        lemma_encode_entry_round_trip(es[0].0, es[0].1, spec_encode_entries(tail));
        lemma_encode_entries_round_trip(tail);
        assert(spec_decode_entry(spec_encode_entries(es)) == Some((es[0], spec_encode_entries(tail))));
        assert(seq![es[0]] + tail =~= es);
    }
}

/// Saving a manifest and reading the bytes back yields the same entries,
/// version and completeness flag.
pub proof fn lemma_save_load_round_trip(es: EntrySeq, version: u64, incomplete: bool)
    requires
        es.len() <= u64::MAX,
        forall|i: int|
            0 <= i < es.len() ==> (#[trigger] es[i]).0.len() <= u64::MAX && es[i].1.1.len()
                <= u64::MAX,
    ensures
        spec_decode(spec_encode(es, version, incomplete)) == Some((es, version, incomplete)),
{
    lemma_auto_spec_u64_to_from_le_bytes();
    let b = spec_encode(es, version, incomplete);
    let va = spec_u64_to_le_bytes(version);
    let fa = seq![if incomplete { 1u8 } else { 0u8 }];
    let ca = spec_u64_to_le_bytes(es.len() as u64);
    assert(b.len() >= 17);
    assert(b.subrange(0, 8) =~= va);
    assert(b[8] == fa[0]);
    assert(b.subrange(9, 17) =~= ca);
    assert(spec_u64_from_le_bytes(b.subrange(9, 17)) == es.len() as u64);
    assert(b.skip(17) =~= spec_encode_entries(es));
    lemma_encode_entries_round_trip(es);
}

proof fn lemma_encode_entries_snoc(es: EntrySeq, e: (Seq<u8>, EntryMeta))
    ensures
        spec_encode_entries(es.push(e)) == spec_encode_entries(es) + spec_encode_entry(e.0, e.1),
    decreases es.len(),
{
    if es.len() == 0 {
        let single = es.push(e);
        assert(single[0] == e);
        assert(single.drop_first() =~= Seq::<(Seq<u8>, EntryMeta)>::empty());
        assert(spec_encode_entries(single.drop_first()) == Seq::<u8>::empty());
        assert(spec_encode_entries(single) == spec_encode_entry(e.0, e.1) + Seq::<u8>::empty());
        assert(spec_encode_entry(e.0, e.1) + Seq::<u8>::empty() =~= spec_encode_entry(e.0, e.1));
        assert(spec_encode_entries(es) == Seq::<u8>::empty());
        assert(Seq::<u8>::empty() + spec_encode_entry(e.0, e.1) =~= spec_encode_entry(e.0, e.1));
    } else {
        assert(es.push(e).drop_first() =~= es.drop_first().push(e));
        lemma_encode_entries_snoc(es.drop_first(), e);
        assert(es.push(e)[0] == es[0]);
        assert(spec_encode_entries(es.push(e)) == spec_encode_entry(es[0].0, es[0].1) + (
        spec_encode_entries(es.drop_first()) + spec_encode_entry(e.0, e.1)));
        assert(spec_encode_entry(es[0].0, es[0].1) + (spec_encode_entries(es.drop_first())
            + spec_encode_entry(e.0, e.1)) =~= (spec_encode_entry(es[0].0, es[0].1)
            + spec_encode_entries(es.drop_first())) + spec_encode_entry(e.0, e.1));
    }
}

/// Appends one byte string to another.
fn append_bytes(out: &mut Vec<u8>, b: &Vec<u8>)
    ensures
        final(out)@ == old(out)@ + b@,
{
    let mut c = clone_bytes(b);
    out.append(&mut c);
}

impl Manifest {
    /// Serializes the manifest for durable storage.
    pub fn save(&self) -> (r: Vec<u8>)
        ensures
            r@ == spec_encode(self.entries(), self.spec_version(), self.spec_incomplete()),
    {
        let mut out: Vec<u8> = Vec::new();
        let mut va = u64_to_le_bytes(self.version());
        out.append(&mut va);
        out.push(if self.is_incomplete() {
            1
        } else {
            0
        });
        let files = self.files();
        let mut ca = u64_to_le_bytes(files.len() as u64);
        out.append(&mut ca);
        let ghost head = out@;
        proof {
            assert(self.entries().len() == files@.len());
            assert(head =~= spec_u64_to_le_bytes(self.spec_version()) + seq![
                if self.spec_incomplete() {
                    1u8
                } else {
                    0u8
                },
            ] + spec_u64_to_le_bytes(self.entries().len() as u64));
            assert(spec_encode_entries(self.entries().take(0)) =~= Seq::<u8>::empty());
            assert(out@ =~= head + spec_encode_entries(self.entries().take(0)));
        }
        let n = files.len();
        let mut i: usize = 0;
        while i < n
            invariant
                n == files@.len(),
                n == self.entries().len(),
                entries_of(files@) == self.entries(),
                i <= n,
                out@ == head + spec_encode_entries(self.entries().take(i as int)),
            decreases n - i,
        {
            let ghost es = self.entries();
            let p = &files[i];
            proof {
                assert(es[i as int] == (p.0@, (p.1.length, p.1.hash@)));
            }
            let mut nl = u64_to_le_bytes(p.0.len() as u64);
            out.append(&mut nl);
            append_bytes(&mut out, &p.0);
            let mut ll = u64_to_le_bytes(p.1.length);
            out.append(&mut ll);
            let mut hl = u64_to_le_bytes(p.1.hash.len() as u64);
            out.append(&mut hl);
            append_bytes(&mut out, &p.1.hash);
            proof {
                lemma_encode_entries_snoc(es.take(i as int), es[i as int]);
                assert(es.take(i as int).push(es[i as int]) =~= es.take(i + 1));
                assert(out@ =~= head + spec_encode_entries(es.take(i + 1)));
            }
            i += 1;
        }
        proof {
            assert(self.entries().take(n as int) =~= self.entries());
        }
        out
    }

    /// Reads a manifest back from stored bytes. Yields `None` when the bytes
    /// are not a well-formed record: malformed framing, a version of zero,
    /// or a repeated name.
    #[verifier::rlimit(60)]
    pub fn load(bytes: &Vec<u8>) -> (r: Option<Manifest>)
        ensures
            match r {
                Some(m) => {
                    &&& m.wf()
                    &&& match spec_decode(bytes@) {
                        Some(t) => m.entries() == t.0 && m.spec_version() == t.1
                            && m.spec_incomplete() == t.2,
                        None => false,
                    }
                },
                None => match spec_decode(bytes@) {
                    Some(t) => !(t.1 >= 1 && kv_unique(t.0)),
                    None => true,
                },
            },
    {
        let n_total = bytes.len();
        if n_total < 17 {
            return None;
        }
        let version = u64_from_le_bytes(slice_subrange(bytes.as_slice(), 0, 8));
        let flag = bytes[8];
        let count = u64_from_le_bytes(slice_subrange(bytes.as_slice(), 9, 17));
        if flag > 1 {
            return None;
        }
        if version == 0 {
            return None;
        }
        let mut m = Manifest::new_incomplete();
        let mut pos: usize = 17;
        let mut k: u64 = 0;
        proof {
            assert(m.entries() =~= Seq::<(Seq<u8>, EntryMeta)>::empty());
        }
        while k < count
            invariant
                n_total == bytes@.len(),
                n_total >= 17,
                17 <= pos <= n_total,
                k <= count,
                m.wf(),
                m.spec_version() == 1,
                m.spec_incomplete(),
                version == spec_u64_from_le_bytes(bytes@.subrange(0, 8)),
                count == spec_u64_from_le_bytes(bytes@.subrange(9, 17)),
                match spec_decode_entries(bytes@.skip(17), count as int) {
                    Some(es) => {
                        &&& m.entries() == es.take(k as int)
                        &&& spec_decode_entries(
                            bytes@.skip(pos as int),
                            count as int - k as int,
                        ) == Some(es.skip(k as int))
                    },
                    None => spec_decode_entries(bytes@.skip(pos as int), count as int - k as int)
                        is None,
                },
            decreases count - k,
        {
            let ghost pos0 = pos as int;
            let ghost bcur = bytes@.skip(pos0);
            if n_total - pos < 8 {
                proof {
                    assert(bcur.len() < 8);
                    assert(spec_decode_entry(bcur) is None);
                }
                return None;
            }
            let nlen64 = u64_from_le_bytes(slice_subrange(bytes.as_slice(), pos, pos + 8));
            proof {
                assert(bcur.subrange(0, 8) =~= bytes@.subrange(pos0, pos0 + 8));
                assert(nlen64 == spec_u64_from_le_bytes(bcur.subrange(0, 8)));
            }
            if nlen64 > (n_total - (pos + 8)) as u64 {
                proof {
                    assert(bcur.len() < 8 + nlen64 as int);
                    assert(spec_decode_entry(bcur) is None);
                }
                return None;
            }
            let nlen = nlen64 as usize;
            let name = slice_to_vec(slice_subrange(bytes.as_slice(), pos + 8, pos + 8 + nlen));
            proof {
                assert(name@ =~= bcur.subrange(8, 8 + nlen64 as int));
            }
            let pos2 = pos + 8 + nlen;
            let ghost b2 = bcur.skip(8 + nlen64 as int);
            proof {
                assert(b2 =~= bytes@.skip(pos2 as int));
            }
            if n_total - pos2 < 16 {
                proof {
                    assert(b2.len() < 16);
                    assert(spec_decode_entry(bcur) is None);
                }
                return None;
            }
            let length = u64_from_le_bytes(slice_subrange(bytes.as_slice(), pos2, pos2 + 8));
            let hlen64 = u64_from_le_bytes(slice_subrange(bytes.as_slice(), pos2 + 8, pos2 + 16));
            proof {
                assert(b2.subrange(0, 8) =~= bytes@.subrange(pos2 as int, pos2 as int + 8));
                assert(b2.subrange(8, 16) =~= bytes@.subrange(pos2 as int + 8, pos2 as int + 16));
                assert(length == spec_u64_from_le_bytes(b2.subrange(0, 8)));
                assert(hlen64 == spec_u64_from_le_bytes(b2.subrange(8, 16)));
            }
            if hlen64 > (n_total - (pos2 + 16)) as u64 {
                proof {
                    assert(b2.len() < 16 + hlen64 as int);
                    assert(spec_decode_entry(bcur) is None);
                }
                return None;
            }
            let hlen = hlen64 as usize;
            let hash = slice_to_vec(slice_subrange(bytes.as_slice(), pos2 + 16, pos2 + 16 + hlen));
            proof {
                assert(hash@ =~= b2.subrange(16, 16 + hlen64 as int));
            }
            let ghost e = (name@, (length, hash@));
            let ghost rest = b2.skip(16 + hlen64 as int);
            proof {
                assert(spec_decode_entry(bcur) == Some((e, rest)));
                assert(rest =~= bytes@.skip(pos2 as int + 16 + hlen as int));
            }
            let dup = m.contains_target(&name);
            proof {
                let whole = spec_decode_entries(bytes@.skip(17), count as int);
                if whole is Some {
                    let es = whole->Some_0;
                    lemma_decode_entries_len(bytes@.skip(17), count as int);
                    assert(es.len() == count as int);
                    assert(spec_decode_entries(bcur, count as int - k as int) == Some(
                        es.skip(k as int),
                    ));
                    let tail = spec_decode_entries(rest, count as int - k as int - 1);
                    assert(tail is Some);
                    assert(es.skip(k as int) == seq![e] + tail->Some_0);
                    assert((seq![e] + tail->Some_0)[0] == e);
                    assert(es.skip(k as int)[0] == es[k as int]);
                    assert(es[k as int] == e);
                    if dup {
                        lemma_kv_map_dom(m.entries(), name@);
                        let j = choose|j: int|
                            0 <= j < m.entries().len() && (#[trigger] m.entries()[j]).0 == name@;
                        assert(es.take(k as int)[j] == es[j]);
                        assert(es[j].0 == es[k as int].0);
                        assert(!kv_unique(es));
                    }
                }
            }
            if dup {
                return None;
            }
            m.set_target(&name, length, &hash);
            pos = pos2 + 16 + hlen;
            k = k + 1;
            proof {
                let whole = spec_decode_entries(bytes@.skip(17), count as int);
                if whole is Some {
                    let es = whole->Some_0;
                    lemma_decode_entries_len(bytes@.skip(17), count as int);
                    assert(es.len() == count as int);
                    assert(spec_decode_entries(bcur, count as int - (k as int - 1)) == Some(
                        es.skip(k as int - 1),
                    ));
                    let tail = spec_decode_entries(rest, count as int - k as int);
                    assert(tail is Some);
                    assert(es.skip(k as int - 1) == seq![e] + tail->Some_0);
                    assert((seq![e] + tail->Some_0)[0] == e);
                    assert(es.skip(k as int - 1)[0] == es[k as int - 1]);
                    assert(es[k as int - 1] == e);
                    assert(es.skip(k as int - 1).drop_first() =~= es.skip(k as int));
                    assert((seq![e] + tail->Some_0).drop_first() =~= tail->Some_0);
                    assert(spec_decode_entries(rest, count as int - k as int) == Some(
                        es.skip(k as int),
                    ));
                    assert(m.entries() =~= es.take(k as int - 1).push(es[k as int - 1]));
                    assert(es.take(k as int - 1).push(es[k as int - 1]) =~= es.take(k as int));
                } else {
                    assert(spec_decode_entries(bcur, count as int - (k as int - 1)) is None);
                    assert(spec_decode_entries(rest, count as int - k as int) is None);
                }
            }
        }
        if pos != n_total {
            proof {
                assert(bytes@.skip(pos as int).len() > 0);
                assert(spec_decode_entries(bytes@.skip(pos as int), 0) is None);
            }
            return None;
        }
        proof {
            assert(bytes@.skip(pos as int).len() == 0);
            assert(spec_decode_entries(bytes@.skip(pos as int), 0) == Some(Seq::<(Seq<u8>,
                EntryMeta)>::empty()));
            let whole = spec_decode_entries(bytes@.skip(17), count as int);
            assert(whole is Some);
            let es = whole->Some_0;
            lemma_decode_entries_len(bytes@.skip(17), count as int);
            assert(es.len() == count as int);
            assert(m.entries() == es.take(count as int));
            assert(es.take(count as int) =~= es);
        }
        m.update_version(version);
        m.set_update_complete_result(flag == 0);
        Some(m)
    }

    /// Reads a manifest from the bytes found on disk, or starts fresh when
    /// nothing readable is there. `None` stands for a missing file. Never
    /// fails: unreadable state degrades to "update everything".
    pub fn load_or_new(data: Option<&Vec<u8>>) -> (m: Manifest)
        ensures
            m.wf(),
            match data {
                Some(bytes) => match spec_decode(bytes@) {
                    Some(t) => if t.1 >= 1 && kv_unique(t.0) {
                        m.entries() == t.0 && m.spec_version() == t.1 && m.spec_incomplete() == t.2
                    } else {
                        m.entries() == Seq::<(Seq<u8>, EntryMeta)>::empty() && m.spec_version()
                            == 1 && m.spec_incomplete()
                    },
                    None => m.entries() == Seq::<(Seq<u8>, EntryMeta)>::empty() && m.spec_version()
                        == 1 && m.spec_incomplete(),
                },
                None => m.entries() == Seq::<(Seq<u8>, EntryMeta)>::empty() && m.spec_version()
                    == 1 && m.spec_incomplete(),
            },
    {
        match data {
            Some(bytes) => match Manifest::load(bytes) {
                Some(m) => m,
                None => Manifest::new_incomplete(),
            },
            None => Manifest::new_incomplete(),
        }
    }
}

} // verus!
