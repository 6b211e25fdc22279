//! The save pipeline: a versioned envelope over the whole world, and the
//! per-group content hashes used to compare runs.
//!
//! A save writes `{ version, tick, component table, resource map }` as one
//! self-delimiting byte string. A load rejects any envelope whose version
//! is not the running build's, installs the decoded component table and
//! tick, and then runs each registered save/load group's entry; groups
//! missing from the envelope are skipped, and envelope entries whose name
//! is no longer registered are dropped.

use vstd::prelude::*;

use crate::codec::{
    blob_views, dec_blob_list, dec_bytes, dec_u64, enc_blob_list, enc_blobs, enc_bytes, enc_u64,
    lemma_enc_u64_props, matches_at, push_blob_list, push_bytes, push_u64,
};
use crate::store::{wf_comps, SlotModel};

verus! {

/// The running build's version string, as bytes.
pub open spec fn version_bytes() -> Seq<u8> {
    seq![0x67u8, 0x6fu8, 0x72u8, 0x69u8, 0x61u8, 0x2du8, 0x31u8]
}

/// The running build's version string.
pub fn version() -> (r: Vec<u8>)
    ensures
        r@ == version_bytes(),
{
    let mut v: Vec<u8> = Vec::new();
    v.push(0x67u8);
    v.push(0x6fu8);
    v.push(0x72u8);
    v.push(0x69u8);
    v.push(0x61u8);
    v.push(0x2du8);
    v.push(0x31u8);
    proof {
        assert(v@ =~= version_bytes());
    }
    v
}

/// The components kept by the save: those whose tag is registered.
pub open spec fn filter_comps(cs: Seq<(u64, Seq<u8>)>, tags: Seq<u64>) -> Seq<(u64, Seq<u8>)>
    decreases cs.len(),
{
    if cs.len() == 0 {
        Seq::empty()
    } else if tags.contains(cs[0].0) {
        seq![cs[0]] + filter_comps(cs.drop_first(), tags)
    } else {
        filter_comps(cs.drop_first(), tags)
    }
}

/// A slot as the save sees it: only registered components.
pub open spec fn restrict_slot(s: SlotModel, tags: Seq<u64>) -> SlotModel {
    SlotModel { comps: filter_comps(s.comps, tags), ..s }
}

/// The whole table as the save sees it.
pub open spec fn restrict_store(slots: Seq<SlotModel>, tags: Seq<u64>) -> Seq<SlotModel> {
    slots.map_values(|s: SlotModel| restrict_slot(s, tags))
}

/// Appending one component to a filtered run.
pub proof fn lemma_filter_comps_snoc(cs: Seq<(u64, Seq<u8>)>, tags: Seq<u64>, c: (u64, Seq<u8>))
    ensures
        filter_comps(cs.push(c), tags) == if tags.contains(c.0) {
            filter_comps(cs, tags).push(c)
        } else {
            filter_comps(cs, tags)
        },
    decreases cs.len(),
{
    let s1 = cs.push(c);
    assert(filter_comps(Seq::<(u64, Seq<u8>)>::empty(), tags) =~= Seq::<(u64, Seq<u8>)>::empty());
    if cs.len() == 0 {
        assert(s1.drop_first() =~= Seq::<(u64, Seq<u8>)>::empty());
        assert(s1[0] == c);
        assert(cs =~= Seq::<(u64, Seq<u8>)>::empty());
        assert(filter_comps(s1, tags) == if tags.contains(c.0) {
            seq![c] + filter_comps(s1.drop_first(), tags)
        } else {
            filter_comps(s1.drop_first(), tags)
        });
        if tags.contains(c.0) {
            assert(seq![c] + Seq::<(u64, Seq<u8>)>::empty() =~= filter_comps(cs, tags).push(c));
        }
    } else {
        assert(s1[0] == cs[0]);
        assert(s1.drop_first() =~= cs.drop_first().push(c));
        lemma_filter_comps_snoc(cs.drop_first(), tags, c);
        if tags.contains(cs[0].0) {
            if tags.contains(c.0) {
                assert(seq![cs[0]] + filter_comps(cs.drop_first(), tags).push(c)
                    =~= (seq![cs[0]] + filter_comps(cs.drop_first(), tags)).push(c));
            }
        }
    }
}

/// Everything a filter keeps carries a registered tag.
pub proof fn lemma_filter_comps_sat(cs: Seq<(u64, Seq<u8>)>, tags: Seq<u64>)
    ensures
        forall|j: int|
            0 <= j < filter_comps(cs, tags).len() ==> tags.contains(
                (#[trigger] filter_comps(cs, tags)[j]).0,
            ),
    decreases cs.len(),
{
    if cs.len() > 0 {
        lemma_filter_comps_sat(cs.drop_first(), tags);
        if tags.contains(cs[0].0) {
            let f = filter_comps(cs, tags);
            assert(f[0] == cs[0]);
            assert forall|j: int| 0 <= j < f.len() implies tags.contains(
                (#[trigger] f[j]).0,
            ) by {
                if j >= 1 {
                    assert(f[j] == filter_comps(cs.drop_first(), tags)[j - 1]);
                }
            }
        } else {
            assert(filter_comps(cs, tags) == filter_comps(cs.drop_first(), tags));
        }
    }
}

/// Every tag a filter keeps occurs in the input.
pub proof fn lemma_filter_comps_tags(cs: Seq<(u64, Seq<u8>)>, tags: Seq<u64>, t: u64)
    requires
        forall|j: int| 0 <= j < cs.len() ==> (#[trigger] cs[j]).0 != t,
    ensures
        forall|j: int|
            0 <= j < filter_comps(cs, tags).len() ==> (#[trigger] filter_comps(cs, tags)[j]).0
                != t,
    decreases cs.len(),
{
    if cs.len() > 0 {
        assert(forall|j: int|
            0 <= j < cs.drop_first().len() ==> (#[trigger] cs.drop_first()[j]).0 != t);
        lemma_filter_comps_tags(cs.drop_first(), tags, t);
        if tags.contains(cs[0].0) {
            let f = filter_comps(cs, tags);
            assert(f[0] == cs[0]);
            assert forall|j: int| 0 <= j < f.len() implies (#[trigger] f[j]).0 != t by {
                if j >= 1 {
                    assert(f[j] == filter_comps(cs.drop_first(), tags)[j - 1]);
                }
            }
        } else {
            assert(filter_comps(cs, tags) == filter_comps(cs.drop_first(), tags));
        }
    }
}

/// Filtering keeps component lists well-formed.
pub proof fn lemma_filter_comps_wf(cs: Seq<(u64, Seq<u8>)>, tags: Seq<u64>)
    requires
        wf_comps(cs),
    ensures
        wf_comps(filter_comps(cs, tags)),
    decreases cs.len(),
{
    if cs.len() > 0 {
        let t = cs.drop_first();
        assert(forall|j: int| 0 <= j < t.len() ==> #[trigger] t[j] == cs[j + 1]);
        assert(wf_comps(t));
        lemma_filter_comps_wf(t, tags);
        if tags.contains(cs[0].0) {
            let f = filter_comps(cs, tags);
            assert(forall|j: int| 0 <= j < t.len() ==> (#[trigger] t[j]).0 != cs[0].0);
            lemma_filter_comps_tags(t, tags, cs[0].0);
            assert(forall|j: int|
                1 <= j < f.len() ==> #[trigger] f[j] == filter_comps(t, tags)[j - 1]);
            assert(forall|i: int, j: int| 0 <= i < j < f.len() ==> f[i].0 != f[j].0) by {
                assert(forall|j: int| 1 <= j < f.len() ==> (#[trigger] f[j]).0 != cs[0].0);
            }
        }
    }
}

/// Filtering an already filtered list changes nothing.
pub proof fn lemma_filter_comps_idempotent(cs: Seq<(u64, Seq<u8>)>, tags: Seq<u64>)
    ensures
        filter_comps(filter_comps(cs, tags), tags) == filter_comps(cs, tags),
{
    lemma_filter_comps_sat(cs, tags);
    lemma_filter_all_kept(filter_comps(cs, tags), tags);
}

/// A list whose tags are all registered filters to itself.
pub proof fn lemma_filter_all_kept(cs: Seq<(u64, Seq<u8>)>, tags: Seq<u64>)
    requires
        forall|j: int| 0 <= j < cs.len() ==> tags.contains((#[trigger] cs[j]).0),
    ensures
        filter_comps(cs, tags) == cs,
    decreases cs.len(),
{
    if cs.len() > 0 {
        let t = cs.drop_first();
        assert(forall|j: int| 0 <= j < t.len() ==> #[trigger] t[j] == cs[j + 1]);
        lemma_filter_all_kept(t, tags);
        assert(seq![cs[0]] + t =~= cs);
    }
}

/// The payload of one saved component: its tag, then its bytes.
pub open spec fn payload_comp(c: (u64, Seq<u8>)) -> Seq<u8> {
    enc_u64(c.0) + enc_bytes(c.1)
}

/// The payload of one saved slot: generation, liveness, and its saved
/// components as a blob list.
pub open spec fn payload_slot(s: SlotModel) -> Seq<u8> {
    enc_u64(s.generation as u64) + enc_u64(
        if s.alive {
            1
        } else {
            0
        },
    ) + enc_blob_list(s.comps.map_values(|c: (u64, Seq<u8>)| payload_comp(c)))
}

/// Reads one component out of one blob; the whole blob must be consumed.
pub fn parse_comp(b: &Vec<u8>) -> (r: Option<(u64, Vec<u8>)>)
    ensures
        r matches Some(c) ==> b@ == payload_comp((c.0, c.1@)),
        forall|c: (u64, Seq<u8>)| b@ == #[trigger] payload_comp(c) ==> (r matches Some(rc)
            && rc.0 == c.0 && rc.1@ == c.1),
{
    proof {
        assert forall|c: (u64, Seq<u8>)| b@ == #[trigger] payload_comp(c) implies matches_at(
            b@,
            0,
            enc_u64(c.0),
        ) by {
            lemma_enc_u64_props(c.0);
            assert(b@.subrange(0, 8) =~= enc_u64(c.0));
        }
    }
    let (tag, j) = match dec_u64(b, 0) {
        Some(p) => p,
        None => {
            return None;
        },
    };
    proof {
        assert forall|c: (u64, Seq<u8>)| b@ == #[trigger] payload_comp(c) implies matches_at(
            b@,
            8,
            enc_bytes(c.1),
        ) by {
            lemma_enc_u64_props(c.0);
            assert(b@.subrange(8, b@.len() as int) =~= enc_bytes(c.1));
        }
    }
    let (data, j2) = match dec_bytes(b, j) {
        Some(p) => p,
        None => {
            return None;
        },
    };
    if j2 != b.len() {
        proof {
            assert forall|c: (u64, Seq<u8>)| b@ != #[trigger] payload_comp(c) by {
                if b@ == payload_comp(c) {
                    lemma_enc_u64_props(c.0);
                    lemma_enc_u64_props(c.1.len() as u64);
                }
            }
        }
        return None;
    }
    proof {
        lemma_enc_u64_props(tag);
        lemma_enc_u64_props(data@.len() as u64);
        assert(b@ =~= enc_u64(tag) + enc_bytes(data@)) by {
            assert(b@.subrange(0, 8) == enc_u64(tag));
            assert(b@.subrange(8, b@.len() as int) == enc_bytes(data@));
            assert(b@ =~= b@.subrange(0, 8) + b@.subrange(8, b@.len() as int));
        }
    }
    Some((tag, data))
}

/// The model of a parsed component list.
pub open spec fn comps_model(v: Seq<(u64, Vec<u8>)>) -> Seq<(u64, Seq<u8>)> {
    v.map_values(|c: (u64, Vec<u8>)| (c.0, c.1@))
}

/// Component payloads identify their components.
pub proof fn lemma_payload_comp_injective(a: (u64, Seq<u8>), b: (u64, Seq<u8>))
    requires
        payload_comp(a) == payload_comp(b),
    ensures
        a == b,
{
    lemma_enc_u64_props(a.0);
    lemma_enc_u64_props(b.0);
    lemma_enc_u64_props(a.1.len() as u64);
    lemma_enc_u64_props(b.1.len() as u64);
    assert(payload_comp(a).len() == 16 + a.1.len());
    assert(payload_comp(b).len() == 16 + b.1.len());
    assert(a.1.len() == b.1.len());
    assert(enc_u64(a.0) =~= payload_comp(a).subrange(0, 8));
    assert(enc_u64(b.0) =~= payload_comp(b).subrange(0, 8));
    assert(a.0 == b.0) by {
        crate::codec::lemma_pow256_8();
        crate::codec::lemma_le_val_of_le_bytes(a.0 as int, 8);
        crate::codec::lemma_le_val_of_le_bytes(b.0 as int, 8);
    }
    assert(a.1 =~= payload_comp(a).subrange(16, payload_comp(a).len() as int));
    assert(b.1 =~= payload_comp(b).subrange(16, payload_comp(b).len() as int));
}

/// Builds the blob of one saved component.
pub fn make_comp_blob(tag: u64, data: &Vec<u8>) -> (r: Vec<u8>)
    ensures
        r@ == payload_comp((tag, data@)),
{
    let mut out: Vec<u8> = Vec::new();
    push_u64(&mut out, tag);
    push_bytes(&mut out, data);
    proof {
        assert(out@ =~= payload_comp((tag, data@)));
    }
    out
}

/// Reads one slot out of one blob; the whole blob must be consumed and the
/// slot's component tags must be distinct.
#[verifier::loop_isolation(false)]
#[verifier::rlimit(60)]
pub fn parse_slot(b: &Vec<u8>) -> (r: Option<crate::store::Slot>)
    ensures
        r matches Some(sl) ==> b@ == payload_slot(sl@) && wf_comps(sl@.comps) && b@.len()
            < 0x1_0000_0000_0000_0000,
        forall|s: SlotModel| (wf_comps(s.comps) && b@ == #[trigger] payload_slot(s)) ==> (
        r matches Some(sl) && sl@ == s),
{
    let total = b.len();
    proof {
        assert(b@.len() == total && b@.len() < 0x1_0000_0000_0000_0000);
    }
    proof {
        assert forall|s: SlotModel| b@ == #[trigger] payload_slot(s) implies matches_at(
            b@,
            0,
            enc_u64(s.generation as u64),
        ) && matches_at(
            b@,
            8,
            enc_u64(
                if s.alive {
                    1
                } else {
                    0
                },
            ),
        ) && matches_at(
            b@,
            16,
            enc_blob_list(s.comps.map_values(|c: (u64, Seq<u8>)| payload_comp(c))),
        ) && b@.len() == 16 + enc_blob_list(
            s.comps.map_values(|c: (u64, Seq<u8>)| payload_comp(c)),
        ).len() by {
            lemma_enc_u64_props(s.generation as u64);
            lemma_enc_u64_props(
                if s.alive {
                    1
                } else {
                    0
                },
            );
            assert(b@.subrange(0, 8) =~= enc_u64(s.generation as u64));
            assert(b@.subrange(8, 16) =~= enc_u64(
                if s.alive {
                    1
                } else {
                    0
                },
            ));
            assert(b@.subrange(16, b@.len() as int) =~= enc_blob_list(
                s.comps.map_values(|c: (u64, Seq<u8>)| payload_comp(c)),
            ));
        }
    }
    let (g64, j1) = match dec_u64(b, 0) {
        Some(p) => p,
        None => {
            return None;
        },
    };
    if g64 > 0xFFFF_FFFFu64 {
        return None;
    }
    let (a64, j2) = match dec_u64(b, j1) {
        Some(p) => p,
        None => {
            return None;
        },
    };
    if a64 > 1 {
        return None;
    }
    let (blobs, j3) = match dec_blob_list(b, j2) {
        Some(p) => p,
        None => {
            return None;
        },
    };
    if j3 != b.len() {
        proof {
            assert forall|s: SlotModel| !(wf_comps(s.comps) && b@ == #[trigger] payload_slot(
                s,
            )) by {
                if b@ == payload_slot(s) {
                    assert(blob_views(blobs@) == s.comps.map_values(
                        |c: (u64, Seq<u8>)| payload_comp(c),
                    ));
                }
            }
        }
        return None;
    }
    let mut comps: Vec<(u64, Vec<u8>)> = Vec::new();
    let n = blobs.len();
    let mut k: usize = 0;
    while k < n
        invariant
            0 <= k <= n,
            n == blobs@.len(),
            comps@.len() == k,
            forall|j: int|
                0 <= j < k ==> blobs@[j]@ == payload_comp(#[trigger] comps_model(comps@)[j]),
        decreases n - k,
    {
        let ghost pre = comps_model(comps@);
        let c = match parse_comp(&blobs[k]) {
            Some(c) => c,
            None => {
                proof {
                    assert forall|s: SlotModel| !(wf_comps(s.comps) && b@
                        == #[trigger] payload_slot(s)) by {
                        if b@ == payload_slot(s) {
                            assert(blob_views(blobs@) == s.comps.map_values(
                                |c: (u64, Seq<u8>)| payload_comp(c),
                            ));
                            assert(blob_views(blobs@)[k as int] == blobs@[k as int]@);
                            assert(s.comps.map_values(|c: (u64, Seq<u8>)| payload_comp(c))[
                                k as int] == payload_comp(s.comps[k as int]));
                            assert(blobs@[k as int]@ == payload_comp(s.comps[k as int]));
                        }
                    }
                }
                return None;
            },
        };
        comps.push(c);
        k = k + 1;
        proof {
            assert(comps_model(comps@) =~= pre.push((c.0, c.1@)));
        }
    }
    let unique = comps_unique(&comps);
    proof {
        assert forall|s: SlotModel| (wf_comps(s.comps) && b@ == #[trigger] payload_slot(
            s,
        )) implies comps_model(comps@) == s.comps by {
            assert(blob_views(blobs@) == s.comps.map_values(
                |c: (u64, Seq<u8>)| payload_comp(c),
            ));
            assert forall|j: int| 0 <= j < n implies #[trigger] comps_model(comps@)[j]
                == s.comps[j] by {
                assert(blob_views(blobs@)[j] == blobs@[j]@);
                assert(s.comps.map_values(|c: (u64, Seq<u8>)| payload_comp(c))[j]
                    == payload_comp(s.comps[j]));
                assert(blobs@[j]@ == payload_comp(s.comps[j]));
                lemma_payload_comp_injective(comps_model(comps@)[j], s.comps[j]);
            }
            assert(comps_model(comps@) =~= s.comps);
        }
    }
    if !unique {
        return None;
    }
    let sl = crate::store::Slot { generation: g64 as u32, alive: a64 == 1, comps };
    proof {
        lemma_enc_u64_props(g64);
        lemma_enc_u64_props(a64);
        assert(sl@.comps == comps_model(sl.comps@));
        assert(sl@.comps.map_values(|c: (u64, Seq<u8>)| payload_comp(c)) =~= blob_views(
            blobs@,
        ));
        assert(b@ =~= payload_slot(sl@)) by {
            assert(b@.subrange(0, 8) == enc_u64(g64));
            assert(b@.subrange(8, 16) =~= enc_u64(a64)) by {
                assert(matches_at(b@, 8, enc_u64(a64)));
                lemma_enc_u64_props(a64);
            }
            assert(b@.subrange(16, b@.len() as int) =~= enc_blob_list(blob_views(blobs@))) by {
                assert(matches_at(b@, 16, enc_blob_list(blob_views(blobs@))));
            }
            assert(b@ =~= b@.subrange(0, 8) + b@.subrange(8, 16) + b@.subrange(
                16,
                b@.len() as int,
            ));
            lemma_enc_u64_props(g64);
            lemma_enc_u64_props(a64);
        }
    }
    Some(sl)
}

/// A chunk coordinate shifted into the unsigned range.
pub open spec fn off32(x: i32) -> u64 {
    (x + 0x8000_0000) as u64
}

/// The payload of one terrain chunk coordinate pair.
pub open spec fn payload_pair(p: (i32, i32)) -> Seq<u8> {
    enc_u64(off32(p.0)) + enc_u64(off32(p.1))
}

/// The encoding of one resource value: a kind, then its payload.
pub open spec fn enc_resval(v: crate::resources::ResValModel) -> Seq<u8> {
    match v {
        crate::resources::ResValModel::Bytes(bb) => enc_u64(0) + enc_bytes(bb),
        crate::resources::ResValModel::Uint(u) => enc_u64(1) + enc_u64(u),
        crate::resources::ResValModel::Terrain(ps) => enc_u64(2) + enc_blob_list(
            ps.map_values(|p: (i32, i32)| payload_pair(p)),
        ),
    }
}

/// The payload of one envelope resource entry: the group name, then either
/// an absence mark or the value.
pub open spec fn payload_res_entry(e: (Seq<u8>, Option<crate::resources::ResValModel>)) -> Seq<
    u8,
> {
    enc_bytes(e.0) + match e.1 {
        None => enc_u64(0),
        Some(v) => enc_u64(1) + enc_resval(v),
    }
}

/// The model of an optional parsed resource value.
pub open spec fn opt_res_model(o: Option<crate::resources::ResVal>) -> Option<
    crate::resources::ResValModel,
> {
    match o {
        None => None,
        Some(v) => Some(v@),
    }
}

/// Reads one chunk coordinate pair out of one blob.
pub fn parse_pair(b: &Vec<u8>) -> (r: Option<(i32, i32)>)
    ensures
        r matches Some(p) ==> b@ == payload_pair(p),
        forall|p: (i32, i32)| b@ == #[trigger] payload_pair(p) ==> r == Some(p),
{
    proof {
        assert forall|p: (i32, i32)| b@ == #[trigger] payload_pair(p) implies matches_at(
            b@,
            0,
            enc_u64(off32(p.0)),
        ) && matches_at(b@, 8, enc_u64(off32(p.1))) && b@.len() == 16 by {
            lemma_enc_u64_props(off32(p.0));
            lemma_enc_u64_props(off32(p.1));
            assert(b@.subrange(0, 8) =~= enc_u64(off32(p.0)));
            assert(b@.subrange(8, 16) =~= enc_u64(off32(p.1)));
        }
    }
    let (x64, j1) = match dec_u64(b, 0) {
        Some(p) => p,
        None => {
            return None;
        },
    };
    let (y64, j2) = match dec_u64(b, j1) {
        Some(p) => p,
        None => {
            return None;
        },
    };
    if x64 >= 0x1_0000_0000u64 || y64 >= 0x1_0000_0000u64 || j2 != b.len() {
        return None;
    }
    let x: i32 = ((x64 as i64) - 0x8000_0000i64) as i32;
    let y: i32 = ((y64 as i64) - 0x8000_0000i64) as i32;
    proof {
        lemma_enc_u64_props(x64);
        lemma_enc_u64_props(y64);
        assert(off32(x) == x64 && off32(y) == y64);
        assert(b@ =~= enc_u64(x64) + enc_u64(y64)) by {
            assert(b@.subrange(0, 8) == enc_u64(x64));
            assert(b@.subrange(8, 16) == enc_u64(y64));
            assert(b@ =~= b@.subrange(0, 8) + b@.subrange(8, 16));
        }
    }
    Some((x, y))
}

/// Builds the blob of one chunk coordinate pair.
pub fn make_pair_blob(p: (i32, i32)) -> (r: Vec<u8>)
    ensures
        r@ == payload_pair(p),
{
    let mut out: Vec<u8> = Vec::new();
    push_u64(&mut out, ((p.0 as i64) + 0x8000_0000i64) as u64);
    push_u64(&mut out, ((p.1 as i64) + 0x8000_0000i64) as u64);
    proof {
        assert(out@ =~= payload_pair(p));
    }
    out
}

/// Appends the encoding of one resource value.
#[verifier::loop_isolation(false)]
pub fn push_resval(out: &mut Vec<u8>, v: &crate::resources::ResVal)
    ensures
        final(out)@ == old(out)@ + enc_resval(v@),
{
    match v {
        crate::resources::ResVal::Bytes(bb) => {
            push_u64(out, 0);
            push_bytes(out, bb);
            proof {
                assert(out@ =~= old(out)@ + enc_resval(v@));
            }
        },
        crate::resources::ResVal::Uint(u) => {
            push_u64(out, 1);
            push_u64(out, *u);
            proof {
                assert(out@ =~= old(out)@ + enc_resval(v@));
            }
        },
        crate::resources::ResVal::Terrain(ps) => {
            push_u64(out, 2);
            let mut blobs: Vec<Vec<u8>> = Vec::new();
            let n = ps.len();
            let mut k: usize = 0;
            while k < n
                invariant
                    0 <= k <= n,
                    n == ps@.len(),
                    blob_views(blobs@) == ps@.take(k as int).map_values(
                        |p: (i32, i32)| payload_pair(p),
                    ),
                decreases n - k,
            {
                let ghost prev = blob_views(blobs@);
                let blob = make_pair_blob(ps[k]);
                let ghost bv = blob@;
                blobs.push(blob);
                k = k + 1;
                proof {
                    assert(blob_views(blobs@) =~= prev.push(bv));
                    assert(ps@.take(k as int) =~= ps@.take(k - 1).push(ps@[k - 1]));
                    assert(ps@.take(k as int).map_values(|p: (i32, i32)| payload_pair(p))
                        =~= prev.push(bv)) by {
                        let m = ps@.take(k as int).map_values(|p: (i32, i32)| payload_pair(p));
                        assert(forall|j: int|
                            0 <= j < k - 1 ==> #[trigger] m[j] == payload_pair(ps@.take(
                                k as int,
                            )[j]) && ps@.take(k as int)[j] == ps@.take(k - 1)[j]);
                        assert(m[k - 1] == payload_pair(ps@[k - 1]));
                    }
                }
            }
            proof {
                assert(ps@.take(n as int) =~= ps@);
            }
            push_blob_list(out, &blobs);
            proof {
                assert(out@ =~= old(out)@ + enc_resval(v@));
            }
        },
    }
}

/// Builds the blob of one envelope resource entry.
pub fn make_res_entry_blob(name: &Vec<u8>, val: &Option<crate::resources::ResVal>) -> (r: Vec<
    u8,
>)
    ensures
        r@ == payload_res_entry((name@, opt_res_model(*val))),
{
    let mut out: Vec<u8> = Vec::new();
    push_bytes(&mut out, name);
    match val {
        None => {
            push_u64(&mut out, 0);
            proof {
                assert(out@ =~= payload_res_entry((name@, opt_res_model(*val))));
            }
        },
        Some(v) => {
            push_u64(&mut out, 1);
            push_resval(&mut out, v);
            proof {
                assert(out@ =~= payload_res_entry((name@, opt_res_model(*val))));
            }
        },
    }
    out
}

/// Reads one envelope resource entry out of one blob.
#[verifier::loop_isolation(false)]
pub fn parse_res_entry(b: &Vec<u8>) -> (r: Option<(Vec<u8>, Option<crate::resources::ResVal>)>)
    ensures
        r matches Some(e) ==> b@ == payload_res_entry((e.0@, opt_res_model(e.1))) && b@.len()
            < 0x1_0000_0000_0000_0000,
        forall|e: (Seq<u8>, Option<crate::resources::ResValModel>)|
            b@ == #[trigger] payload_res_entry(e) ==> (r matches Some(re) && re.0@ == e.0
                && opt_res_model(re.1) == e.1),
{
    let total = b.len();
    proof {
        assert(b@.len() == total && b@.len() < 0x1_0000_0000_0000_0000);
    }
    proof {
        assert forall|e: (Seq<u8>, Option<crate::resources::ResValModel>)|
            b@ == #[trigger] payload_res_entry(e) implies matches_at(b@, 0, enc_bytes(e.0)) by {
            lemma_enc_u64_props(e.0.len() as u64);
            assert(b@.subrange(0, 8 + e.0.len() as int) =~= enc_bytes(e.0));
        }
    }
    let (name, j1) = match dec_bytes(b, 0) {
        Some(p) => p,
        None => {
            return None;
        },
    };
    proof {
        lemma_enc_u64_props(name@.len() as u64);
        assert forall|e: (Seq<u8>, Option<crate::resources::ResValModel>)|
            b@ == #[trigger] payload_res_entry(e) implies e.0 == name@ && matches_at(
            b@,
            j1 as int,
            match e.1 {
                None => enc_u64(0),
                Some(v) => enc_u64(1),
            },
        ) by {
            lemma_enc_u64_props(e.0.len() as u64);
            lemma_enc_u64_props(0);
            lemma_enc_u64_props(1);
            assert(matches_at(b@, 0, enc_bytes(e.0)));
            assert(e.0 == name@);
            let tail = match e.1 {
                None => enc_u64(0),
                Some(v) => enc_u64(1) + enc_resval(v),
            };
            assert(b@ == enc_bytes(e.0) + tail);
            match e.1 {
                None => {
                    assert(b@.subrange(j1 as int, j1 + 8) =~= enc_u64(0));
                },
                Some(v) => {
                    lemma_enc_u64_props(1);
                    assert(b@.subrange(j1 as int, j1 + 8) =~= enc_u64(1));
                },
            }
        }
    }
    let (flag, j2) = match dec_u64(b, j1) {
        Some(p) => p,
        None => {
            return None;
        },
    };
    if flag == 0 {
        if j2 != b.len() {
            proof {
                assert forall|e: (Seq<u8>, Option<crate::resources::ResValModel>)|
                    b@ != #[trigger] payload_res_entry(e) by {
                    if b@ == payload_res_entry(e) {
                        lemma_enc_u64_props(0);
                        if e.1 is Some {
                            lemma_enc_u64_props(1);
                        }
                    }
                }
            }
            return None;
        }
        proof {
            lemma_enc_u64_props(0);
            assert(b@ =~= enc_bytes(name@) + enc_u64(0)) by {
                assert(b@.subrange(0, j1 as int) == enc_bytes(name@));
                assert(b@.subrange(j1 as int, j2 as int) == enc_u64(flag));
                assert(b@ =~= b@.subrange(0, j1 as int) + b@.subrange(j1 as int, j2 as int));
            }
            assert forall|e: (Seq<u8>, Option<crate::resources::ResValModel>)|
                b@ == #[trigger] payload_res_entry(e) implies e.1 is None by {
                if e.1 is Some {
                    lemma_enc_u64_props(1);
                }
            }
        }
        return Some((name, None));
    }
    if flag != 1 {
        proof {
            assert forall|e: (Seq<u8>, Option<crate::resources::ResValModel>)|
                b@ != #[trigger] payload_res_entry(e) by {
                if b@ == payload_res_entry(e) {
                    lemma_enc_u64_props(0);
                    lemma_enc_u64_props(1);
                }
            }
        }
        return None;
    }
    proof {
        lemma_enc_u64_props(1);
        assert forall|e: (Seq<u8>, Option<crate::resources::ResValModel>)|
            b@ == #[trigger] payload_res_entry(e) implies (e.1 is Some && b@.subrange(
            j2 as int,
            b@.len() as int,
        ) == enc_resval(e.1->Some_0)) by {
            lemma_enc_u64_props(0);
            if e.1 is None {
                assert(false);
            }
            assert(b@ == enc_bytes(e.0) + (enc_u64(1) + enc_resval(e.1->Some_0)));
            assert(b@.subrange(j2 as int, b@.len() as int) =~= enc_resval(e.1->Some_0));
        }
    }
    let rv = match parse_resval_tail(b, j2) {
        Some(v) => v,
        None => {
            return None;
        },
    };
    proof {
        assert(b@ =~= enc_bytes(name@) + (enc_u64(1) + enc_resval(rv@))) by {
            assert(b@.subrange(0, j1 as int) == enc_bytes(name@));
            assert(b@.subrange(j1 as int, j2 as int) == enc_u64(1));
            assert(b@.subrange(j2 as int, b@.len() as int) == enc_resval(rv@));
            assert(b@ =~= b@.subrange(0, j1 as int) + b@.subrange(j1 as int, j2 as int)
                + b@.subrange(j2 as int, b@.len() as int));
        }
    }
    Some((name, Some(rv)))
}

/// Reads one resource value occupying the whole rest of the blob.
#[verifier::loop_isolation(false)]
pub fn parse_resval_tail(b: &Vec<u8>, i: usize) -> (r: Option<crate::resources::ResVal>)
    requires
        i <= b@.len(),
    ensures
        r matches Some(v) ==> b@.subrange(i as int, b@.len() as int) == enc_resval(v@),
        forall|v: crate::resources::ResValModel|
            b@.subrange(i as int, b@.len() as int) == #[trigger] enc_resval(v) ==> (r matches Some(
                rv,
            ) && rv@ == v),
{
    proof {
        assert forall|v: crate::resources::ResValModel|
            b@.subrange(i as int, b@.len() as int) == #[trigger] enc_resval(v) implies matches_at(
            b@,
            i as int,
            enc_u64(
                match v {
                    crate::resources::ResValModel::Bytes(_) => 0u64,
                    crate::resources::ResValModel::Uint(_) => 1u64,
                    crate::resources::ResValModel::Terrain(_) => 2u64,
                },
            ),
        ) by {
            lemma_enc_u64_props(0);
            lemma_enc_u64_props(1);
            lemma_enc_u64_props(2);
            let t = b@.subrange(i as int, b@.len() as int);
            assert(t.len() >= 8) by {
                match v {
                    crate::resources::ResValModel::Bytes(bb) => {
                        assert(enc_resval(v).len() == 8 + enc_bytes(bb).len());
                    },
                    crate::resources::ResValModel::Uint(u) => {
                        lemma_enc_u64_props(u);
                    },
                    crate::resources::ResValModel::Terrain(ps) => {
                        assert(enc_resval(v).len() == 8 + enc_blob_list(
                            ps.map_values(|p: (i32, i32)| payload_pair(p)),
                        ).len());
                    },
                }
            }
            assert(b@.subrange(i as int, i + 8) =~= t.subrange(0, 8));
            match v {
                crate::resources::ResValModel::Bytes(_) => {
                    assert(t.subrange(0, 8) =~= enc_u64(0u64));
                },
                crate::resources::ResValModel::Uint(_) => {
                    assert(t.subrange(0, 8) =~= enc_u64(1u64));
                },
                crate::resources::ResValModel::Terrain(_) => {
                    assert(t.subrange(0, 8) =~= enc_u64(2u64));
                },
            }
        }
    }
    let (kind, j1) = match dec_u64(b, i) {
        Some(p) => p,
        None => {
            return None;
        },
    };
    let ghost t = b@.subrange(i as int, b@.len() as int);
    proof {
        lemma_enc_u64_props(kind);
        assert(b@.subrange(j1 as int, b@.len() as int) =~= t.subrange(8, t.len() as int));
        assert forall|v: crate::resources::ResValModel|
            b@.subrange(i as int, b@.len() as int) == #[trigger] enc_resval(v) implies (match v {
            crate::resources::ResValModel::Bytes(_) => kind == 0,
            crate::resources::ResValModel::Uint(_) => kind == 1,
            crate::resources::ResValModel::Terrain(_) => kind == 2,
        }) by {
            lemma_enc_u64_props(0);
            lemma_enc_u64_props(1);
            lemma_enc_u64_props(2);
        }
    }
    if kind == 0 {
        proof {
            assert forall|v: crate::resources::ResValModel|
                b@.subrange(i as int, b@.len() as int) == #[trigger] enc_resval(v) implies (
            v is Bytes && matches_at(b@, j1 as int, enc_bytes(v->Bytes_0)) && b@.len() == j1
                + enc_bytes(v->Bytes_0).len()) by {
                lemma_enc_u64_props(v->Bytes_0.len() as u64);
                lemma_enc_u64_props(0);
                assert(t.subrange(8, t.len() as int) =~= enc_bytes(v->Bytes_0));
                assert(b@.subrange(j1 as int, b@.len() as int) =~= enc_bytes(v->Bytes_0));
            }
        }
        let (bb, j2) = match dec_bytes(b, j1) {
            Some(p) => p,
            None => {
                return None;
            },
        };
        if j2 != b.len() {
            proof {
                assert forall|v: crate::resources::ResValModel|
                    b@.subrange(i as int, b@.len() as int) != #[trigger] enc_resval(v) by {
                    if b@.subrange(i as int, b@.len() as int) == enc_resval(v) {
                        lemma_enc_u64_props(v->Bytes_0.len() as u64);
                        lemma_enc_u64_props(bb@.len() as u64);
                    }
                }
            }
            return None;
        }
        let rv = crate::resources::ResVal::Bytes(bb);
        proof {
            assert(b@.subrange(i as int, b@.len() as int) =~= enc_u64(0) + enc_bytes(bb@)) by {
                lemma_enc_u64_props(bb@.len() as u64);
                assert(b@.subrange(i as int, j1 as int) == enc_u64(kind));
                assert(b@.subrange(j1 as int, b@.len() as int) =~= enc_bytes(bb@));
                assert(b@.subrange(i as int, b@.len() as int) =~= b@.subrange(i as int, j1 as int)
                    + b@.subrange(j1 as int, b@.len() as int));
            }
        }
        return Some(rv);
    }
    if kind == 1 {
        let (u, j2) = match dec_u64(b, j1) {
            Some(p) => p,
            None => {
                proof {
                    assert forall|v: crate::resources::ResValModel|
                        b@.subrange(i as int, b@.len() as int) != #[trigger] enc_resval(v) by {
                        if b@.subrange(i as int, b@.len() as int) == enc_resval(v) {
                            lemma_enc_u64_props(v->Uint_0);
                            lemma_enc_u64_props(1);
                            assert(t.len() == 16);
                            assert(matches_at(b@, j1 as int, enc_u64(v->Uint_0))) by {
                                assert(t.subrange(8, 16) =~= enc_u64(v->Uint_0));
                                assert(b@.subrange(j1 as int, j1 + 8) =~= t.subrange(8, 16));
                            }
                        }
                    }
                }
                return None;
            },
        };
        if j2 != b.len() {
            proof {
                assert forall|v: crate::resources::ResValModel|
                    b@.subrange(i as int, b@.len() as int) != #[trigger] enc_resval(v) by {
                    if b@.subrange(i as int, b@.len() as int) == enc_resval(v) {
                        lemma_enc_u64_props(v->Uint_0);
                    }
                }
            }
            return None;
        }
        let rv = crate::resources::ResVal::Uint(u);
        proof {
            assert(b@.subrange(i as int, b@.len() as int) =~= enc_u64(1) + enc_u64(u)) by {
                assert(b@.subrange(i as int, j1 as int) == enc_u64(kind));
                assert(b@.subrange(j1 as int, b@.len() as int) =~= enc_u64(u)) by {
                    assert(matches_at(b@, j1 as int, enc_u64(u)));
                    lemma_enc_u64_props(u);
                }
                assert(b@.subrange(i as int, b@.len() as int) =~= b@.subrange(i as int, j1 as int)
                    + b@.subrange(j1 as int, b@.len() as int));
            }
            assert forall|v: crate::resources::ResValModel|
                b@.subrange(i as int, b@.len() as int) == #[trigger] enc_resval(v) implies rv@
                == v by {
                lemma_enc_u64_props(v->Uint_0);
                assert(matches_at(b@, j1 as int, enc_u64(v->Uint_0))) by {
                    assert(b@.subrange(j1 as int, j1 + 8) =~= enc_u64(v->Uint_0));
                }
            }
        }
        return Some(rv);
    }
    if kind != 2 {
        return None;
    }
    proof {
        assert forall|v: crate::resources::ResValModel|
            b@.subrange(i as int, b@.len() as int) == #[trigger] enc_resval(v) implies (
        v is Terrain && matches_at(
            b@,
            j1 as int,
            enc_blob_list(v->Terrain_0.map_values(|p: (i32, i32)| payload_pair(p))),
        ) && b@.len() == j1 + enc_blob_list(
            v->Terrain_0.map_values(|p: (i32, i32)| payload_pair(p)),
        ).len()) by {
            assert(b@.subrange(j1 as int, b@.len() as int) =~= enc_blob_list(
                v->Terrain_0.map_values(|p: (i32, i32)| payload_pair(p)),
            ));
        }
    }
    let (blobs, j2) = match dec_blob_list(b, j1) {
        Some(p) => p,
        None => {
            return None;
        },
    };
    if j2 != b.len() {
        proof {
            assert forall|v: crate::resources::ResValModel|
                b@.subrange(i as int, b@.len() as int) != #[trigger] enc_resval(v) by {
                if b@.subrange(i as int, b@.len() as int) == enc_resval(v) {
                }
            }
        }
        return None;
    }
    let mut pairs: Vec<(i32, i32)> = Vec::new();
    let n = blobs.len();
    let mut k: usize = 0;
    while k < n
        invariant
            0 <= k <= n,
            n == blobs@.len(),
            pairs@.len() == k,
            forall|j: int| 0 <= j < k ==> blobs@[j]@ == payload_pair(#[trigger] pairs@[j]),
        decreases n - k,
    {
        let p = match parse_pair(&blobs[k]) {
            Some(p) => p,
            None => {
                proof {
                    assert forall|v: crate::resources::ResValModel|
                        b@.subrange(i as int, b@.len() as int) != #[trigger] enc_resval(v) by {
                        if b@.subrange(i as int, b@.len() as int) == enc_resval(v) {
                            let ps = v->Terrain_0;
                            assert(blob_views(blobs@) == ps.map_values(
                                |p: (i32, i32)| payload_pair(p),
                            ));
                            assert(blob_views(blobs@)[k as int] == blobs@[k as int]@);
                            assert(ps.map_values(|p: (i32, i32)| payload_pair(p))[k as int]
                                == payload_pair(ps[k as int]));
                        }
                    }
                }
                return None;
            },
        };
        pairs.push(p);
        k = k + 1;
    }
    let rv = crate::resources::ResVal::Terrain(pairs);
    proof {
        assert(blob_views(blobs@) =~= pairs@.map_values(|p: (i32, i32)| payload_pair(p)));
        assert(b@.subrange(i as int, b@.len() as int) =~= enc_u64(2) + enc_blob_list(
            pairs@.map_values(|p: (i32, i32)| payload_pair(p)),
        )) by {
            assert(b@.subrange(i as int, j1 as int) == enc_u64(kind));
            assert(b@.subrange(j1 as int, b@.len() as int) =~= enc_blob_list(blob_views(blobs@)))
                by {
                assert(matches_at(b@, j1 as int, enc_blob_list(blob_views(blobs@))));
            }
            assert(b@.subrange(i as int, b@.len() as int) =~= b@.subrange(i as int, j1 as int)
                + b@.subrange(j1 as int, b@.len() as int));
        }
        assert forall|v: crate::resources::ResValModel|
            b@.subrange(i as int, b@.len() as int) == #[trigger] enc_resval(v) implies rv@ == v by {
            let ps = v->Terrain_0;
            assert(blob_views(blobs@) == ps.map_values(|p: (i32, i32)| payload_pair(p)));
            assert forall|j: int| 0 <= j < n implies #[trigger] pairs@[j] == ps[j] by {
                assert(blob_views(blobs@)[j] == blobs@[j]@);
                assert(ps.map_values(|p: (i32, i32)| payload_pair(p))[j] == payload_pair(ps[j]));
                assert(payload_pair(pairs@[j]) == payload_pair(ps[j]));
                lemma_enc_u64_props(off32(pairs@[j].0));
                lemma_enc_u64_props(off32(ps[j].0));
                lemma_enc_u64_props(off32(pairs@[j].1));
                lemma_enc_u64_props(off32(ps[j].1));
                assert(enc_u64(off32(pairs@[j].0)) =~= payload_pair(pairs@[j]).subrange(0, 8));
                assert(enc_u64(off32(ps[j].0)) =~= payload_pair(ps[j]).subrange(0, 8));
                assert(enc_u64(off32(pairs@[j].1)) =~= payload_pair(pairs@[j]).subrange(8, 16));
                assert(enc_u64(off32(ps[j].1)) =~= payload_pair(ps[j]).subrange(8, 16));
                assert(off32(pairs@[j].0) == off32(ps[j].0) && off32(pairs@[j].1) == off32(
                    ps[j].1,
                )) by {
                    crate::codec::lemma_pow256_8();
                    crate::codec::lemma_le_val_of_le_bytes(off32(pairs@[j].0) as int, 8);
                    crate::codec::lemma_le_val_of_le_bytes(off32(ps[j].0) as int, 8);
                    crate::codec::lemma_le_val_of_le_bytes(off32(pairs@[j].1) as int, 8);
                    crate::codec::lemma_le_val_of_le_bytes(off32(ps[j].1) as int, 8);
                }
            }
            assert(pairs@ =~= ps);
        }
    }
    Some(rv)
}

/// Whether all tags in a parsed component list are distinct.
#[verifier::loop_isolation(false)]
pub fn comps_unique(v: &Vec<(u64, Vec<u8>)>) -> (r: bool)
    ensures
        r == wf_comps(v@.map_values(|c: (u64, Vec<u8>)| (c.0, c.1@))),
{
    let ghost m = v@.map_values(|c: (u64, Vec<u8>)| (c.0, c.1@));
    let n = v.len();
    let mut i: usize = 0;
    while i < n
        invariant
            0 <= i <= n,
            n == m.len(),
            m == v@.map_values(|c: (u64, Vec<u8>)| (c.0, c.1@)),
            forall|a: int, bj: int| 0 <= a < bj < m.len() && a < i ==> m[a].0 != m[bj].0,
        decreases n - i,
    {
        let mut j: usize = i + 1;
        while j < n
            invariant
                i < j <= n,
                i < n,
                n == m.len(),
                m == v@.map_values(|c: (u64, Vec<u8>)| (c.0, c.1@)),
                forall|bj: int| i < bj < j ==> m[i as int].0 != m[bj].0,
            decreases n - j,
        {
            if v[i].0 == v[j].0 {
                proof {
                    assert(m[i as int].0 == m[j as int].0);
                }
                return false;
            }
            j = j + 1;
        }
        i = i + 1;
    }
    true
}


/// Whether a tag is registered for serialization.
#[verifier::loop_isolation(false)]
pub fn tags_contains(tags: &Vec<u64>, t: u64) -> (r: bool)
    ensures
        r == tags@.contains(t),
{
    let n = tags.len();
    let mut k: usize = 0;
    while k < n
        invariant
            0 <= k <= n,
            n == tags@.len(),
            forall|j: int| 0 <= j < k ==> tags@[j] != t,
        decreases n - k,
    {
        if tags[k] == t {
            return true;
        }
        k = k + 1;
    }
    proof {
        assert(!tags@.contains(t));
    }
    false
}

/// Builds the blob of one saved slot: only registered components go in.
#[verifier::loop_isolation(false)]
pub fn make_slot_blob(slot: &crate::store::Slot, tags: &Vec<u64>) -> (r: Vec<u8>)
    ensures
        r@ == payload_slot(restrict_slot(slot@, tags@)),
{
    let mut out: Vec<u8> = Vec::new();
    push_u64(&mut out, slot.generation as u64);
    if slot.alive {
        push_u64(&mut out, 1);
    } else {
        push_u64(&mut out, 0);
    }
    let mut cblobs: Vec<Vec<u8>> = Vec::new();
    let n = slot.comps.len();
    let mut k: usize = 0;
    while k < n
        invariant
            0 <= k <= n,
            n == slot@.comps.len(),
            blob_views(cblobs@) == filter_comps(slot@.comps.take(k as int), tags@).map_values(
                |c: (u64, Seq<u8>)| payload_comp(c),
            ),
        decreases n - k,
    {
        let ghost prevf = filter_comps(slot@.comps.take(k as int), tags@);
        let ghost prev = blob_views(cblobs@);
        proof {
            assert(slot@.comps.take(k + 1) =~= slot@.comps.take(k as int).push(
                slot@.comps[k as int],
            ));
            lemma_filter_comps_snoc(slot@.comps.take(k as int), tags@, slot@.comps[k as int]);
            assert(slot@.comps[k as int] == (slot.comps@[k as int].0, slot.comps@[k as int].1@));
        }
        let keep = tags_contains(tags, slot.comps[k].0);
        if keep {
            let blob = make_comp_blob(slot.comps[k].0, &slot.comps[k].1);
            let ghost bv = blob@;
            cblobs.push(blob);
            proof {
                assert(blob_views(cblobs@) =~= prev.push(bv));
                assert(filter_comps(slot@.comps.take(k + 1), tags@) == prevf.push(
                    slot@.comps[k as int],
                ));
                assert(filter_comps(slot@.comps.take(k + 1), tags@).map_values(
                    |c: (u64, Seq<u8>)| payload_comp(c),
                ) =~= prev.push(bv)) by {
                    let m = prevf.push(slot@.comps[k as int]).map_values(
                        |c: (u64, Seq<u8>)| payload_comp(c),
                    );
                    assert(forall|j: int|
                        0 <= j < prevf.len() ==> #[trigger] m[j] == payload_comp(prevf[j])
                            && prevf.push(slot@.comps[k as int])[j] == prevf[j]);
                    assert(m[prevf.len() as int] == payload_comp(slot@.comps[k as int]));
                    assert(forall|j: int|
                        0 <= j < prevf.len() ==> #[trigger] prev[j] == prevf.map_values(
                            |c: (u64, Seq<u8>)| payload_comp(c),
                        )[j]);
                }
            }
        }
        k = k + 1;
    }
    proof {
        assert(slot@.comps.take(n as int) =~= slot@.comps);
    }
    push_blob_list(&mut out, &cblobs);
    proof {
        assert(out@ =~= payload_slot(restrict_slot(slot@, tags@)));
    }
    out
}

/// Builds the blobs of every slot, in slot order.
#[verifier::loop_isolation(false)]
pub fn make_slot_blobs(world: &crate::store::World, tags: &Vec<u64>) -> (r: Vec<Vec<u8>>)
    ensures
        blob_views(r@) == restrict_store(world@, tags@).map_values(
            |s: SlotModel| payload_slot(s),
        ),
{
    let mut blobs: Vec<Vec<u8>> = Vec::new();
    let n = world.slots.len();
    let mut k: usize = 0;
    while k < n
        invariant
            0 <= k <= n,
            n == world@.len(),
            blobs@.len() == k,
            forall|j: int|
                0 <= j < k ==> #[trigger] blobs@[j]@ == payload_slot(
                    restrict_slot(world@[j], tags@),
                ),
        decreases n - k,
    {
        let blob = make_slot_blob(&world.slots[k], tags);
        proof {
            assert(world.slots@[k as int]@ == world@[k as int]);
        }
        blobs.push(blob);
        k = k + 1;
    }
    proof {
        let lhs = blob_views(blobs@);
        let rhs = restrict_store(world@, tags@).map_values(|s: SlotModel| payload_slot(s));
        assert(lhs =~= rhs) by {
            assert(forall|j: int|
                0 <= j < n ==> #[trigger] rhs[j] == payload_slot(
                    restrict_store(world@, tags@)[j],
                ) && restrict_store(world@, tags@)[j] == restrict_slot(world@[j], tags@));
            assert(forall|j: int| 0 <= j < n ==> #[trigger] lhs[j] == blobs@[j]@);
        }
    }
    blobs
}

/// The value part of one saved resource group: an absence mark, or the
/// value's encoding.
pub open spec fn opt_resval_bytes(o: Option<crate::resources::ResValModel>) -> Seq<u8> {
    match o {
        None => enc_u64(0),
        Some(v) => enc_u64(1) + enc_resval(v),
    }
}

/// Builds the value part of one saved resource group.
pub fn make_opt_resval_bytes(val: &Option<crate::resources::ResVal>) -> (r: Vec<u8>)
    ensures
        r@ == opt_resval_bytes(opt_res_model(*val)),
{
    let mut out: Vec<u8> = Vec::new();
    match val {
        None => {
            push_u64(&mut out, 0);
            proof {
                assert(out@ =~= opt_resval_bytes(opt_res_model(*val)));
            }
        },
        Some(v) => {
            push_u64(&mut out, 1);
            push_resval(&mut out, v);
            proof {
                assert(out@ =~= opt_resval_bytes(opt_res_model(*val)));
            }
        },
    }
    out
}

/// The saved resource entries a world and its registries produce: each
/// registered group's name paired with the group's current value.
pub open spec fn res_entries_of(
    w: crate::world::WorldModel,
    regs: crate::registry::RegistriesModel,
) -> Seq<(Seq<u8>, Option<crate::resources::ResValModel>)> {
    regs.saveload.map_values(
        |e: crate::registry::SaveLoadEntryModel|
            (e.name, crate::resources::find_res(w.resources, e.res_id)),
    )
}

/// The whole save envelope a world and its registries produce.
#[verifier::ext_equal]
pub struct EnvelopeModel {
    pub version: Seq<u8>,
    pub tick: u32,
    pub slots: Seq<SlotModel>,
    pub res: Seq<(Seq<u8>, Option<crate::resources::ResValModel>)>,
}

/// A well-formed envelope: every slot's component tags are distinct.
pub open spec fn wf_env(env: EnvelopeModel) -> bool {
    crate::store::wf_store(env.slots)
}

/// The byte encoding of an envelope.
pub open spec fn enc_env(env: EnvelopeModel) -> Seq<u8> {
    enc_bytes(env.version) + enc_u64(env.tick as u64) + enc_blob_list(
        env.slots.map_values(|s: SlotModel| payload_slot(s)),
    ) + enc_blob_list(
        env.res.map_values(
            |e: (Seq<u8>, Option<crate::resources::ResValModel>)| payload_res_entry(e),
        ),
    )
}

/// The envelope a save of `w` writes.
pub open spec fn env_of(
    w: crate::world::WorldModel,
    regs: crate::registry::RegistriesModel,
) -> EnvelopeModel {
    EnvelopeModel {
        version: version_bytes(),
        tick: w.tick,
        slots: restrict_store(w.slots, regs.comp_tags),
        res: res_entries_of(w, regs),
    }
}

impl crate::world::Egregoria {
    /// Serializes the whole world into a versioned envelope: the build
    /// version, the tick counter, every slot with its registered
    /// components, and each registered save/load group's resource value
    /// under the group's name.
    #[verifier::loop_isolation(false)]
    pub fn serialize(&self, regs: &crate::registry::Registries) -> (r: Vec<u8>)
        requires
            crate::world::wf_world(self@),
            crate::resources::all_free(self@.resources),
        ensures
            r@ == enc_env(env_of(self@, regs@)),
    {
        let mut out: Vec<u8> = Vec::new();
        let v = version();
        push_bytes(&mut out, &v);
        push_u64(&mut out, self.tick as u64);
        let slot_blobs = make_slot_blobs(&self.world, &regs.comp_tags);
        push_blob_list(&mut out, &slot_blobs);
        let mut res_blobs: Vec<Vec<u8>> = Vec::new();
        let n = regs.saveload.len();
        let mut k: usize = 0;
        while k < n
            invariant
                0 <= k <= n,
                n == regs@.saveload.len(),
                res_blobs@.len() == k,
                forall|j: int|
                    0 <= j < k ==> #[trigger] res_blobs@[j]@ == payload_res_entry(
                        res_entries_of(self@, regs@)[j],
                    ),
            decreases n - k,
        {
            let entry = &regs.saveload[k];
            let val = self.resources.get_opt(entry.res_id);
            let blob = make_res_entry_blob(&entry.name, &val);
            proof {
                assert(res_entries_of(self@, regs@)[k as int] == (
                    regs@.saveload[k as int].name,
                    crate::resources::find_res(self@.resources, regs@.saveload[k as int].res_id),
                ));
                assert(regs@.saveload[k as int] == regs.saveload@[k as int]@);
                assert(opt_res_model(val) == crate::resources::find_res(
                    self@.resources,
                    regs@.saveload[k as int].res_id,
                ));
            }
            res_blobs.push(blob);
            k = k + 1;
        }
        push_blob_list(&mut out, &res_blobs);
        proof {
            let env = env_of(self@, regs@);
            assert(blob_views(res_blobs@) =~= env.res.map_values(
                |e: (Seq<u8>, Option<crate::resources::ResValModel>)| payload_res_entry(e),
            )) by {
                assert forall|j: int| #![trigger blob_views(res_blobs@)[j]]
                    0 <= j < n implies blob_views(res_blobs@)[j] == env.res.map_values(
                    |e: (Seq<u8>, Option<crate::resources::ResValModel>)| payload_res_entry(e),
                )[j] by {
                    assert(blob_views(res_blobs@)[j] == res_blobs@[j]@);
                    assert(env.res.map_values(
                        |e: (Seq<u8>, Option<crate::resources::ResValModel>)| payload_res_entry(
                            e,
                        ),
                    )[j] == payload_res_entry(env.res[j]));
                }
            }
            assert(out@ =~= enc_env(env));
        }
        out
    }
}

/// The key of the tick counter in the fingerprint map.
pub open spec fn tick_name() -> Seq<u8> {
    seq![0x74u8, 0x69u8, 0x63u8, 0x6bu8]
}

/// The key of the whole component table in the fingerprint map.
pub open spec fn world_name() -> Seq<u8> {
    seq![0x77u8, 0x6fu8, 0x72u8, 0x6cu8, 0x64u8]
}

/// The fingerprints of a world: the tick, a hash of the component table
/// exactly as a save would write it, and a hash of each registered
/// save/load group's bytes, under the group's name, in registration order.
pub open spec fn hashes_model(
    w: crate::world::WorldModel,
    regs: crate::registry::RegistriesModel,
) -> Seq<(Seq<u8>, u64)> {
    seq![
        (tick_name(), w.tick as u64),
        (
            world_name(),
            crate::hashing::fnv64(
                enc_blob_list(
                    restrict_store(w.slots, regs.comp_tags).map_values(
                        |s: SlotModel| payload_slot(s),
                    ),
                ),
            ),
        ),
    ] + regs.saveload.map_values(
        |e: crate::registry::SaveLoadEntryModel|
            (
                e.name,
                crate::hashing::fnv64(
                    opt_resval_bytes(crate::resources::find_res(w.resources, e.res_id)),
                ),
            ),
    )
}

impl crate::world::Egregoria {
    /// Computes the fingerprint map: the same bytes a save would write,
    /// hashed group by group, for cross-run determinism checks.
    #[verifier::loop_isolation(false)]
    pub fn hashes(&self, regs: &crate::registry::Registries) -> (r: Vec<(Vec<u8>, u64)>)
        requires
            crate::world::wf_world(self@),
            crate::resources::all_free(self@.resources),
        ensures
            r@.map_values(|p: (Vec<u8>, u64)| (p.0@, p.1)) == hashes_model(self@, regs@),
    {
        let mut out: Vec<(Vec<u8>, u64)> = Vec::new();
        let mut tn: Vec<u8> = Vec::new();
        tn.push(0x74u8);
        tn.push(0x69u8);
        tn.push(0x63u8);
        tn.push(0x6bu8);
        proof {
            assert(tn@ =~= tick_name());
        }
        out.push((tn, self.tick as u64));
        let mut wn: Vec<u8> = Vec::new();
        wn.push(0x77u8);
        wn.push(0x6fu8);
        wn.push(0x72u8);
        wn.push(0x6cu8);
        wn.push(0x64u8);
        proof {
            assert(wn@ =~= world_name());
        }
        let slot_blobs = make_slot_blobs(&self.world, &regs.comp_tags);
        let mut world_blob: Vec<u8> = Vec::new();
        push_blob_list(&mut world_blob, &slot_blobs);
        proof {
            assert(world_blob@ =~= enc_blob_list(
                restrict_store(self@.slots, regs@.comp_tags).map_values(
                    |s: SlotModel| payload_slot(s),
                ),
            ));
        }
        let wh = crate::hashing::hash_u64(&world_blob);
        out.push((wn, wh));
        let n = regs.saveload.len();
        let mut k: usize = 0;
        while k < n
            invariant
                0 <= k <= n,
                n == regs@.saveload.len(),
                out@.len() == 2 + k,
                out@.map_values(|p: (Vec<u8>, u64)| (p.0@, p.1)) =~= hashes_model(
                    self@,
                    regs@,
                ).take(2 + k),
            decreases n - k,
        {
            let ghost prev = out@.map_values(|p: (Vec<u8>, u64)| (p.0@, p.1));
            let entry = &regs.saveload[k];
            let mut name_copy: Vec<u8> = Vec::new();
            let nl = entry.name.len();
            let mut q: usize = 0;
            while q < nl
                invariant
                    0 <= q <= nl,
                    k < n,
                    n == regs@.saveload.len(),
                    nl == regs.saveload@[k as int].name@.len(),
                    entry == &regs.saveload[k as int],
                    name_copy@ =~= regs.saveload@[k as int].name@.take(q as int),
                decreases nl - q,
            {
                proof {
                    assert(regs.saveload@[k as int].name@.take(q as int).push(
                        regs.saveload@[k as int].name@[q as int],
                    ) =~= regs.saveload@[k as int].name@.take(q + 1));
                }
                name_copy.push(entry.name[q]);
                q = q + 1;
            }
            proof {
                assert(regs.saveload@[k as int].name@.take(nl as int) =~= regs.saveload@[
                    k as int].name@);
            }
            let val = self.resources.get_opt(entry.res_id);
            let vb = make_opt_resval_bytes(&val);
            let h = crate::hashing::hash_u64(&vb);
            out.push((name_copy, h));
            k = k + 1;
            proof {
                assert(regs@.saveload[k - 1] == regs.saveload@[k - 1]@);
                assert(hashes_model(self@, regs@)[2 + k - 1] == (
                    regs@.saveload[k - 1].name,
                    crate::hashing::fnv64(
                        opt_resval_bytes(
                            crate::resources::find_res(
                                self@.resources,
                                regs@.saveload[k - 1].res_id,
                            ),
                        ),
                    ),
                ));
                assert(out@.map_values(|p: (Vec<u8>, u64)| (p.0@, p.1)) =~= prev.push(
                    (name_copy@, h),
                ));
                assert(hashes_model(self@, regs@).take(2 + k) =~= hashes_model(
                    self@,
                    regs@,
                ).take(2 + k - 1).push(hashes_model(self@, regs@)[2 + k - 1]));
            }
        }
        proof {
            assert(hashes_model(self@, regs@).take(2 + n) =~= hashes_model(self@, regs@));
        }
        out
    }
}


/// The value an envelope's resource map holds under a name: first match.
pub open spec fn lookup_env(
    res: Seq<(Seq<u8>, Option<crate::resources::ResValModel>)>,
    name: Seq<u8>,
) -> Option<Option<crate::resources::ResValModel>>
    decreases res.len(),
{
    if res.len() == 0 {
        None
    } else if res[0].0 == name {
        Some(res[0].1)
    } else {
        lookup_env(res.drop_first(), name)
    }
}

/// A first match determines `lookup_env`.
pub proof fn lemma_lookup_env_unique(
    res: Seq<(Seq<u8>, Option<crate::resources::ResValModel>)>,
    name: Seq<u8>,
    i: int,
)
    requires
        0 <= i < res.len(),
        res[i].0 == name,
        forall|j: int| 0 <= j < i ==> res[j].0 != name,
    ensures
        lookup_env(res, name) == Some(res[i].1),
    decreases res.len(),
{
    if i > 0 {
        lemma_lookup_env_unique(res.drop_first(), name, i - 1);
    }
}

/// No match at all means `lookup_env` is `None`.
pub proof fn lemma_lookup_env_none(
    res: Seq<(Seq<u8>, Option<crate::resources::ResValModel>)>,
    name: Seq<u8>,
)
    requires
        forall|j: int| 0 <= j < res.len() ==> res[j].0 != name,
    ensures
        lookup_env(res, name) is None,
    decreases res.len(),
{
    if res.len() > 0 {
        lemma_lookup_env_none(res.drop_first(), name);
    }
}

/// One load hook applied to the resource store: install the saved value of
/// the group's resource, if the envelope carries the group; a saved absence
/// removes the resource (the clock never goes away), and a value that does
/// not fit a reserved id is dropped.
pub open spec fn apply_hook(
    rs: Seq<crate::resources::ResEntryModel>,
    envres: Seq<(Seq<u8>, Option<crate::resources::ResValModel>)>,
    e: crate::registry::SaveLoadEntryModel,
) -> Seq<crate::resources::ResEntryModel> {
    match lookup_env(envres, e.name) {
        None => rs,
        Some(opt) => match opt {
            Some(v) => if crate::world::ok_for_id(e.res_id, v) {
                crate::resources::set_res(rs, e.res_id, v)
            } else {
                rs
            },
            None => if e.res_id == crate::world::CLOCK_RES {
                rs
            } else {
                crate::resources::del_res(rs, e.res_id)
            },
        },
    }
}

/// Every registered load hook applied, in registration order.
pub open spec fn apply_load_hooks(
    rs: Seq<crate::resources::ResEntryModel>,
    envres: Seq<(Seq<u8>, Option<crate::resources::ResValModel>)>,
    sl: Seq<crate::registry::SaveLoadEntryModel>,
) -> Seq<crate::resources::ResEntryModel>
    decreases sl.len(),
{
    if sl.len() == 0 {
        rs
    } else {
        apply_load_hooks(apply_hook(rs, envres, sl[0]), envres, sl.drop_first())
    }
}

/// Appending one more hook to a run of applications.
pub proof fn lemma_apply_load_hooks_snoc(
    rs: Seq<crate::resources::ResEntryModel>,
    envres: Seq<(Seq<u8>, Option<crate::resources::ResValModel>)>,
    sl: Seq<crate::registry::SaveLoadEntryModel>,
    e: crate::registry::SaveLoadEntryModel,
)
    ensures
        apply_load_hooks(rs, envres, sl.push(e)) == apply_hook(
            apply_load_hooks(rs, envres, sl),
            envres,
            e,
        ),
    decreases sl.len(),
{
    let s1 = sl.push(e);
    if sl.len() == 0 {
        assert(s1.drop_first() =~= Seq::<crate::registry::SaveLoadEntryModel>::empty());
        assert(s1[0] == e);
        assert(apply_load_hooks(rs, envres, s1) == apply_load_hooks(
            apply_hook(rs, envres, e),
            envres,
            s1.drop_first(),
        ));
        assert(apply_load_hooks(apply_hook(rs, envres, e), envres, s1.drop_first())
            == apply_hook(rs, envres, e));
        assert(apply_load_hooks(rs, envres, sl) == rs);
    } else {
        assert(s1[0] == sl[0]);
        assert(s1.drop_first() =~= sl.drop_first().push(e));
        lemma_apply_load_hooks_snoc(apply_hook(rs, envres, sl[0]), envres, sl.drop_first(), e);
        assert(apply_load_hooks(rs, envres, s1) == apply_load_hooks(
            apply_hook(rs, envres, s1[0]),
            envres,
            s1.drop_first(),
        ));
        assert(apply_load_hooks(rs, envres, sl) == apply_load_hooks(
            apply_hook(rs, envres, sl[0]),
            envres,
            sl.drop_first(),
        ));
    }
}

/// The world a load of `env` constructs: a fresh world without terrain,
/// the decoded slots and tick installed, then every registered load hook.
pub open spec fn world_from_env(
    env: EnvelopeModel,
    regs: crate::registry::RegistriesModel,
) -> crate::world::WorldModel {
    crate::world::WorldModel {
        slots: env.slots,
        tick: env.tick,
        resources: apply_load_hooks(
            crate::world::new_world_model(0, regs).resources,
            env.res,
            regs.saveload,
        ),
    }
}

/// Why a load is rejected.
#[derive(Debug, PartialEq, Eq, Structural, Clone, Copy)]
pub enum LoadError {
    /// The envelope's version is not the running build's: no partial world
    /// is constructed.
    VersionMismatch,
    /// The bytes are not a well-formed envelope.
    Malformed,
}




/// The slot payload list of a slot table.
pub open spec fn slot_payloads(ss: Seq<SlotModel>) -> Seq<Seq<u8>> {
    ss.map_values(|s: SlotModel| payload_slot(s))
}

/// The entry payload list of an envelope resource map.
pub open spec fn entry_payloads(
    es: Seq<(Seq<u8>, Option<crate::resources::ResValModel>)>,
) -> Seq<Seq<u8>> {
    es.map_values(
        |e: (Seq<u8>, Option<crate::resources::ResValModel>)| payload_res_entry(e),
    )
}

/// Reads every slot blob; all must parse and be well-formed.
#[verifier::loop_isolation(false)]
pub fn parse_slots(blobs: &Vec<Vec<u8>>) -> (r: Option<Vec<crate::store::Slot>>)
    ensures
        r matches Some(v) ==> v@.len() == blobs@.len() && crate::store::wf_store(slots_model(v@))
            && (forall|j: int|
            0 <= j < v@.len() ==> blobs@[j]@ == payload_slot(#[trigger] slots_model(v@)[j])),
        forall|ss: Seq<SlotModel>|
            (crate::store::wf_store(ss) && blob_views(blobs@) == #[trigger] slot_payloads(ss))
                ==> (r matches Some(v) && slots_model(v@) == ss),
{
    let mut slots: Vec<crate::store::Slot> = Vec::new();
    let sn = blobs.len();
    let mut k: usize = 0;
    while k < sn
        invariant
            0 <= k <= sn,
            sn == blobs@.len(),
            slots@.len() == k,
            forall|j: int|
                0 <= j < k ==> blobs@[j]@ == payload_slot(#[trigger] slots_model(slots@)[j])
                    && wf_comps(slots_model(slots@)[j].comps) && blobs@[j]@.len()
                    < 0x1_0000_0000_0000_0000,
        decreases sn - k,
    {
        let ghost prev = slots_model(slots@);
        let sl = match parse_slot(&blobs[k]) {
            Some(sl) => sl,
            None => {
                proof {
                    assert forall|ss: Seq<SlotModel>|
                        !(crate::store::wf_store(ss) && blob_views(blobs@)
                            == #[trigger] slot_payloads(ss)) by {
                        if crate::store::wf_store(ss) && blob_views(blobs@) == slot_payloads(
                            ss,
                        ) {
                            assert(slot_payloads(ss).len() == ss.len());
                            assert(blob_views(blobs@).len() == blobs@.len());
                            assert(blob_views(blobs@)[k as int] == blobs@[k as int]@);
                            assert(slot_payloads(ss)[k as int] == payload_slot(ss[k as int]));
                            assert(wf_comps(ss[k as int].comps));
                        }
                    }
                }
                return None;
            },
        };
        slots.push(sl);
        k = k + 1;
        proof {
            assert(slots_model(slots@) =~= prev.push(slots@[slots@.len() - 1]@));
        }
    }
    proof {
        assert(crate::store::wf_store(slots_model(slots@)));
        assert forall|ss: Seq<SlotModel>|
            (crate::store::wf_store(ss) && blob_views(blobs@) == #[trigger] slot_payloads(
                ss,
            )) implies slots_model(slots@) == ss by {
            assert(slot_payloads(ss).len() == ss.len());
            assert(blob_views(blobs@).len() == blobs@.len());
            assert(slots_model(slots@).len() == slots@.len());
            assert forall|j: int| 0 <= j < sn implies #[trigger] slots_model(slots@)[j]
                == ss[j] by {
                assert(blob_views(blobs@)[j] == blobs@[j]@);
                assert(slot_payloads(ss)[j] == payload_slot(ss[j]));
                lemma_payload_slot_injective(slots_model(slots@)[j], ss[j]);
            }
            assert(slots_model(slots@) =~= ss);
        }
    }
    Some(slots)
}

/// Reads every resource entry blob; all must parse.
#[verifier::loop_isolation(false)]
pub fn parse_entries(blobs: &Vec<Vec<u8>>) -> (r: Option<
    Vec<(Vec<u8>, Option<crate::resources::ResVal>)>,
>)
    ensures
        r matches Some(v) ==> v@.len() == blobs@.len() && (forall|j: int|
            0 <= j < v@.len() ==> blobs@[j]@ == payload_res_entry(
                #[trigger] entries_model(v@)[j],
            )),
        forall|es: Seq<(Seq<u8>, Option<crate::resources::ResValModel>)>|
            blob_views(blobs@) == #[trigger] entry_payloads(es) ==> (r matches Some(v)
                && entries_model(v@) == es),
{
    let mut entries: Vec<(Vec<u8>, Option<crate::resources::ResVal>)> = Vec::new();
    let rn = blobs.len();
    let mut k: usize = 0;
    while k < rn
        invariant
            0 <= k <= rn,
            rn == blobs@.len(),
            entries@.len() == k,
            forall|j: int|
                0 <= j < k ==> blobs@[j]@ == payload_res_entry(
                    #[trigger] entries_model(entries@)[j],
                ) && blobs@[j]@.len() < 0x1_0000_0000_0000_0000,
        decreases rn - k,
    {
        let ghost prev = entries_model(entries@);
        let e = match parse_res_entry(&blobs[k]) {
            Some(e) => e,
            None => {
                proof {
                    assert forall|es: Seq<(Seq<u8>, Option<crate::resources::ResValModel>)>|
                        blob_views(blobs@) != #[trigger] entry_payloads(es) by {
                        if blob_views(blobs@) == entry_payloads(es) {
                            assert(entry_payloads(es).len() == es.len());
                            assert(blob_views(blobs@).len() == blobs@.len());
                            assert(blob_views(blobs@)[k as int] == blobs@[k as int]@);
                            assert(entry_payloads(es)[k as int] == payload_res_entry(
                                es[k as int],
                            ));
                        }
                    }
                }
                return None;
            },
        };
        entries.push(e);
        k = k + 1;
        proof {
            assert(entries_model(entries@) =~= prev.push(
                (entries@[entries@.len() - 1].0@, opt_res_model(entries@[entries@.len() - 1].1)),
            ));
        }
    }
    proof {
        assert forall|es: Seq<(Seq<u8>, Option<crate::resources::ResValModel>)>|
            blob_views(blobs@) == #[trigger] entry_payloads(es) implies entries_model(entries@)
            == es by {
            assert(entry_payloads(es).len() == es.len());
            assert(blob_views(blobs@).len() == blobs@.len());
            assert(entries_model(entries@).len() == entries@.len());
            assert forall|j: int| 0 <= j < rn implies #[trigger] entries_model(entries@)[j]
                == es[j] by {
                assert(blob_views(blobs@)[j] == blobs@[j]@);
                assert(entry_payloads(es)[j] == payload_res_entry(es[j]));
                lemma_payload_res_entry_injective(entries_model(entries@)[j], es[j]);
            }
            assert(entries_model(entries@) =~= es);
        }
    }
    Some(entries)
}

/// The models of a parsed envelope resource map.
pub open spec fn entries_model(v: Seq<(Vec<u8>, Option<crate::resources::ResVal>)>) -> Seq<
    (Seq<u8>, Option<crate::resources::ResValModel>),
> {
    v.map_values(|e: (Vec<u8>, Option<crate::resources::ResVal>)| (e.0@, opt_res_model(e.1)))
}

/// The models of a parsed slot table.
pub open spec fn slots_model(v: Seq<crate::store::Slot>) -> Seq<SlotModel> {
    v.map_values(|s: crate::store::Slot| s@)
}

/// Runs every registered load hook, in registration order: each hook
/// installs its group's saved value (or removes the resource on a saved
/// absence), skipping groups the envelope does not carry.
#[verifier::loop_isolation(false)]
#[verifier::rlimit(100)]
pub fn run_load_hooks(
    goria: &mut crate::world::Egregoria,
    entries: &Vec<(Vec<u8>, Option<crate::resources::ResVal>)>,
    regs: &crate::registry::Registries,
)
    requires
        crate::world::wf_world(old(goria)@),
        crate::resources::all_free(old(goria)@.resources),
    ensures
        crate::world::wf_world(final(goria)@),
        crate::resources::all_free(final(goria)@.resources),
        final(goria)@.slots == old(goria)@.slots,
        final(goria)@.tick == old(goria)@.tick,
        final(goria)@.resources == apply_load_hooks(
            old(goria)@.resources,
            entries_model(entries@),
            regs@.saveload,
        ),
{
    let ghost base = old(goria)@.resources;
    let ghost envres = entries_model(entries@);
        let hn = regs.saveload.len();
        let mut h: usize = 0;
        while h < hn
            invariant
                0 <= h <= hn,
                hn == regs@.saveload.len(),
                goria.tick == old(goria)@.tick,
                goria@.slots == old(goria)@.slots,
                crate::store::wf_store(goria@.slots),
                crate::resources::wf_res(goria.resources@),
                crate::resources::all_free(goria.resources@),
                crate::resources::find_res(goria.resources@, crate::world::CLOCK_RES) is Some,
                crate::resources::find_res(
                    goria.resources@,
                    crate::world::CLOCK_RES,
                )->Some_0 is Uint,
                crate::resources::find_res(goria.resources@, crate::world::MAP_RES) is Some
                    ==> crate::resources::find_res(
                    goria.resources@,
                    crate::world::MAP_RES,
                )->Some_0 is Terrain,
                goria.resources@ == apply_load_hooks(base, envres, regs@.saveload.take(h as int)),
                entries_model(entries@) == envres,
            decreases hn - h,
        {
            let ghost pre = goria.resources@;
            let entry = &regs.saveload[h];
            let ghost em = regs@.saveload[h as int];
            proof {
                assert(em == regs.saveload@[h as int]@);
            }
            // look the group's name up in the decoded resource map
            let mut found: bool = false;
            let mut fidx: usize = 0;
            let en = entries.len();
            let mut q: usize = 0;
            while q < en
                invariant
                    0 <= q <= en,
                    en == entries@.len(),
                    entries_model(entries@) == envres,
                    em.name == regs.saveload@[h as int].name@,
                    h < hn,
                    hn == regs@.saveload.len(),
                    entry == &regs.saveload[h as int],
                    !found ==> forall|j: int| 0 <= j < q ==> envres[j].0 != em.name,
                    found ==> fidx < en && envres[fidx as int].0 == em.name && (forall|j: int|
                        0 <= j < fidx ==> envres[j].0 != em.name),
                decreases en - q + (if found { 0int } else { 1int }),
            {
                if found {
                    break ;
                }
                if crate::registry::eq_bytes(&entries[q].0, &entry.name) {
                    found = true;
                    fidx = q;
                    proof {
                        assert(envres[q as int].0 == entries@[q as int].0@);
                    }
                } else {
                    proof {
                        assert(envres[q as int].0 == entries@[q as int].0@);
                    }
                    q = q + 1;
                    continue ;
                }
                q = q + 1;
            }
            proof {
                if found {
                    lemma_lookup_env_unique(envres, em.name, fidx as int);
                } else {
                    lemma_lookup_env_none(envres, em.name);
                }
            }
            if found {
                match &entries[fidx].1 {
                    Some(val) => {
                        let id = entry.res_id;
                        let kind_ok = match (
                            val,
                            id == crate::world::CLOCK_RES,
                            id == crate::world::MAP_RES,
                        ) {
                            (crate::resources::ResVal::Uint(_), _, false) => true,
                            (_, false, false) => true,
                            (crate::resources::ResVal::Terrain(_), false, _) => true,
                            _ => false,
                        };
                        proof {
                            assert(kind_ok == crate::world::ok_for_id(id, val@));
                            assert(opt_res_model(entries@[fidx as int].1) == envres[fidx as int].1);
                            assert(val@ == envres[fidx as int].1->Some_0);
                            crate::resources::lemma_find_res_idx(pre, id);
                        }
                        if kind_ok {
                            goria.resources.insert(id, val.duplicate());
                            proof {
                                crate::resources::lemma_set_res_frame(
                                    pre,
                                    id,
                                    val@,
                                    crate::world::CLOCK_RES,
                                );
                                crate::resources::lemma_set_res_frame(
                                    pre,
                                    id,
                                    val@,
                                    crate::world::MAP_RES,
                                );
                                assert(crate::resources::all_free(goria.resources@)) by {
                                    assert(forall|i: int|
                                        0 <= i < goria.resources@.len() ==> !(
                                        #[trigger] goria.resources@[i]).borrowed);
                                }
                            }
                        }
                    },
                    None => {
                        let id = entry.res_id;
                        if id != crate::world::CLOCK_RES {
                            proof {
                                crate::resources::lemma_find_res_idx(pre, id);
                                crate::resources::lemma_del_res_frame(
                                    pre,
                                    id,
                                    crate::world::CLOCK_RES,
                                );
                                crate::resources::lemma_del_res_frame(
                                    pre,
                                    id,
                                    crate::world::MAP_RES,
                                );
                            }
                            goria.resources.remove(id);
                            proof {
                                assert(crate::resources::all_free(goria.resources@)) by {
                                    crate::resources::lemma_find_res_idx(pre, id);
                                    assert(forall|i: int|
                                        0 <= i < goria.resources@.len() ==> (
                                        #[trigger] goria.resources@[i]) == pre[i] || goria.resources@[
                                            i] == pre[i + 1]);
                                }
                            }
                        }
                    },
                }
            }
            proof {
                assert(goria.resources@ == apply_hook(pre, envres, em));
                assert(regs@.saveload.take(h + 1) =~= regs@.saveload.take(h as int).push(em));
                lemma_apply_load_hooks_snoc(base, envres, regs@.saveload.take(h as int), em);
            }
            h = h + 1;
        }
    proof {
        assert(regs@.saveload.take(hn as int) =~= regs@.saveload);
    }
}

impl crate::world::Egregoria {
    /// Reconstructs a world from a saved envelope. An envelope whose
    /// version differs from the running build's is rejected outright, with
    /// no partial world and no load hook run; malformed bytes are rejected
    /// too. On success the decoded component table and tick are installed
    /// in a fresh world and every registered load hook runs in order;
    /// groups missing from the envelope are skipped and unregistered
    /// envelope entries are dropped.
    #[verifier::loop_isolation(false)]
    #[verifier::rlimit(100)]
    pub fn deserialize(bytes: &Vec<u8>, regs: &crate::registry::Registries) -> (r: Result<
        crate::world::Egregoria,
        LoadError,
    >)
        ensures
            r matches Ok(w2) ==> crate::world::wf_world(w2@) && crate::resources::all_free(
                w2@.resources,
            ),
            r is Ok ==> (exists|env: EnvelopeModel|
                wf_env(env) && bytes@ == #[trigger] enc_env(env) && env.version
                    == version_bytes()),
            forall|env: EnvelopeModel|
                (wf_env(env) && bytes@ == #[trigger] enc_env(env) && env.version
                    == version_bytes()) ==> (r matches Ok(w2) && w2@ == world_from_env(
                    env,
                    regs@,
                )),
            forall|env: EnvelopeModel|
                (wf_env(env) && bytes@ == #[trigger] enc_env(env) && env.version
                    != version_bytes()) ==> r == Err::<crate::world::Egregoria, LoadError>(
                    LoadError::VersionMismatch,
                ),
    {
        proof {
            assert forall|env: EnvelopeModel|
                bytes@ == #[trigger] enc_env(env) implies matches_at(
                bytes@,
                0,
                enc_bytes(env.version),
            ) by {
                lemma_enc_u64_props(env.version.len() as u64);
                assert(bytes@.subrange(0, 8 + env.version.len() as int) =~= enc_bytes(
                    env.version,
                ));
            }
        }
        let (ver, j1) = match dec_bytes(bytes, 0) {
            Some(p) => p,
            None => {
                return Err(LoadError::Malformed);
            },
        };
        proof {
            lemma_enc_u64_props(ver@.len() as u64);
            assert forall|env: EnvelopeModel|
                bytes@ == #[trigger] enc_env(env) implies env.version == ver@ && matches_at(
                bytes@,
                j1 as int,
                enc_u64(env.tick as u64),
            ) by {
                lemma_enc_u64_props(env.version.len() as u64);
                lemma_enc_u64_props(env.tick as u64);
                assert(matches_at(bytes@, 0, enc_bytes(env.version)));
                assert(env.version == ver@);
                assert(bytes@.subrange(j1 as int, j1 + 8) =~= enc_u64(env.tick as u64));
            }
        }
        let (t64, j2) = match dec_u64(bytes, j1) {
            Some(p) => p,
            None => {
                return Err(LoadError::Malformed);
            },
        };
        if t64 > 0xFFFF_FFFFu64 {
            return Err(LoadError::Malformed);
        }
        proof {
            lemma_enc_u64_props(t64);
            assert forall|env: EnvelopeModel|
                bytes@ == #[trigger] enc_env(env) implies env.tick as u64 == t64 && matches_at(
                bytes@,
                j2 as int,
                enc_blob_list(env.slots.map_values(|s: SlotModel| payload_slot(s))),
            ) by {
                lemma_enc_u64_props(env.tick as u64);
                lemma_enc_u64_props(env.version.len() as u64);
                assert(bytes@.subrange(
                    j2 as int,
                    j2 + enc_blob_list(
                        env.slots.map_values(|s: SlotModel| payload_slot(s)),
                    ).len() as int,
                ) =~= enc_blob_list(env.slots.map_values(|s: SlotModel| payload_slot(s))));
            }
        }
        let (sblobs, j3) = match dec_blob_list(bytes, j2) {
            Some(p) => p,
            None => {
                return Err(LoadError::Malformed);
            },
        };
        proof {
            assert forall|env: EnvelopeModel|
                bytes@ == #[trigger] enc_env(env) implies blob_views(sblobs@) == env.slots.map_values(
                |s: SlotModel| payload_slot(s),
            ) && matches_at(
                bytes@,
                j3 as int,
                enc_blob_list(
                    env.res.map_values(
                        |e: (Seq<u8>, Option<crate::resources::ResValModel>)| payload_res_entry(
                            e,
                        ),
                    ),
                ),
            ) && bytes@.len() == j3 + enc_blob_list(
                env.res.map_values(
                    |e: (Seq<u8>, Option<crate::resources::ResValModel>)| payload_res_entry(e),
                ),
            ).len() by {
                lemma_enc_u64_props(env.version.len() as u64);
                lemma_enc_u64_props(env.tick as u64);
                assert(bytes@.subrange(
                    j3 as int,
                    bytes@.len() as int,
                ) =~= enc_blob_list(
                    env.res.map_values(
                        |e: (Seq<u8>, Option<crate::resources::ResValModel>)| payload_res_entry(
                            e,
                        ),
                    ),
                ));
            }
        }
        let (rblobs, j4) = match dec_blob_list(bytes, j3) {
            Some(p) => p,
            None => {
                return Err(LoadError::Malformed);
            },
        };
        if j4 != bytes.len() {
            return Err(LoadError::Malformed);
        }
        let slots = match parse_slots(&sblobs) {
            Some(v) => v,
            None => {
                proof {
                    assert forall|env: EnvelopeModel|
                        !(wf_env(env) && bytes@ == #[trigger] enc_env(env)) by {
                        if wf_env(env) && bytes@ == enc_env(env) {
                            assert(blob_views(sblobs@) == slot_payloads(env.slots));
                        }
                    }
                }
                return Err(LoadError::Malformed);
            },
        };
        let entries = match parse_entries(&rblobs) {
            Some(v) => v,
            None => {
                proof {
                    assert forall|env: EnvelopeModel|
                        !(wf_env(env) && bytes@ == #[trigger] enc_env(env)) by {
                        if wf_env(env) && bytes@ == enc_env(env) {
                            assert(blob_views(rblobs@) == entry_payloads(env.res));
                        }
                    }
                }
                return Err(LoadError::Malformed);
            },
        };
        let ghost sn = sblobs@.len();
        let ghost rn = rblobs@.len();
        let ghost actual_env = EnvelopeModel {
            version: ver@,
            tick: t64 as u32,
            slots: slots_model(slots@),
            res: entries_model(entries@),
        };
        proof {
            assert forall|env: EnvelopeModel|
                (wf_env(env) && bytes@ == #[trigger] enc_env(env)) implies env
                == actual_env by {
                assert(env.version == ver@ && env.tick as u64 == t64);
                assert(blob_views(sblobs@) == slot_payloads(env.slots));
                assert(slots_model(slots@) == env.slots);
                assert(blob_views(rblobs@) == entry_payloads(env.res));
                assert(entries_model(entries@) == env.res);
            }
        }
        let v = version();
        if !crate::registry::eq_bytes(&ver, &v) {
            proof {
                assert forall|env: EnvelopeModel|
                    (wf_env(env) && bytes@ == #[trigger] enc_env(env)) implies env.version
                    != version_bytes() by {}
            }
            return Err(LoadError::VersionMismatch);
        }
        let mut goria = crate::world::Egregoria::new(0, regs);
        goria.world = crate::store::World { slots };
        goria.tick = t64 as u32;
        proof {
            assert(crate::world::wf_world(goria@));
            assert(goria@.resources == crate::world::new_world_model(0, regs@).resources);
        }
        run_load_hooks(&mut goria, &entries, regs);
        proof {
            assert(goria@ =~~= world_from_env(actual_env, regs@));
            assert(wf_env(actual_env));
            assert(bytes@ =~= enc_env(actual_env)) by {
                lemma_enc_u64_props(t64);
                assert(bytes@.subrange(0, j1 as int) == enc_bytes(ver@));
                assert(bytes@.subrange(j1 as int, j2 as int) == enc_u64(t64));
                assert(blob_views(sblobs@) =~= actual_env.slots.map_values(
                    |s: SlotModel| payload_slot(s),
                )) by {
                    assert forall|j: int| #![trigger blob_views(sblobs@)[j]]
                        0 <= j < sn implies blob_views(sblobs@)[j]
                        == actual_env.slots.map_values(|s: SlotModel| payload_slot(s))[j] by {
                        assert(blob_views(sblobs@)[j] == sblobs@[j]@);
                        assert(actual_env.slots.map_values(|s: SlotModel| payload_slot(s))[j]
                            == payload_slot(actual_env.slots[j]));
                    }
                }
                assert(blob_views(rblobs@) =~= actual_env.res.map_values(
                    |e: (Seq<u8>, Option<crate::resources::ResValModel>)| payload_res_entry(e),
                )) by {
                    assert forall|j: int| #![trigger blob_views(rblobs@)[j]]
                        0 <= j < rn implies blob_views(rblobs@)[j] == actual_env.res.map_values(
                        |e: (Seq<u8>, Option<crate::resources::ResValModel>)|
                            payload_res_entry(e),
                    )[j] by {
                        assert(blob_views(rblobs@)[j] == rblobs@[j]@);
                        assert(actual_env.res.map_values(
                            |e: (Seq<u8>, Option<crate::resources::ResValModel>)|
                                payload_res_entry(e),
                        )[j] == payload_res_entry(actual_env.res[j]));
                    }
                }
                assert(bytes@.subrange(j2 as int, j3 as int) == enc_blob_list(
                    blob_views(sblobs@),
                ));
                assert(bytes@.subrange(j3 as int, j4 as int) == enc_blob_list(
                    blob_views(rblobs@),
                ));
                assert(bytes@ =~= bytes@.subrange(0, j1 as int) + bytes@.subrange(
                    j1 as int,
                    j2 as int,
                ) + bytes@.subrange(j2 as int, j3 as int) + bytes@.subrange(
                    j3 as int,
                    j4 as int,
                ));
            }
        }
        Ok(goria)
    }
}

/// Slot payloads identify their slots.
pub proof fn lemma_payload_slot_injective(a: SlotModel, b: SlotModel)
    requires
        payload_slot(a) == payload_slot(b),
        payload_slot(a).len() < 0x1_0000_0000_0000_0000,
    ensures
        a == b,
{
    lemma_enc_u64_props(a.generation as u64);
    lemma_enc_u64_props(b.generation as u64);
    lemma_enc_u64_props(
        if a.alive {
            1
        } else {
            0
        },
    );
    lemma_enc_u64_props(
        if b.alive {
            1
        } else {
            0
        },
    );
    crate::codec::lemma_pow256_8();
    let pa = payload_slot(a);
    let pb = payload_slot(b);
    assert(enc_u64(a.generation as u64) =~= pa.subrange(0, 8));
    assert(enc_u64(b.generation as u64) =~= pb.subrange(0, 8));
    crate::codec::lemma_le_val_of_le_bytes(a.generation as u64 as int, 8);
    crate::codec::lemma_le_val_of_le_bytes(b.generation as u64 as int, 8);
    assert(a.generation == b.generation);
    assert(enc_u64(
        if a.alive {
            1
        } else {
            0
        },
    ) =~= pa.subrange(8, 16));
    assert(enc_u64(
        if b.alive {
            1
        } else {
            0
        },
    ) =~= pb.subrange(8, 16));
    crate::codec::lemma_le_val_of_le_bytes(
        if a.alive {
            1
        } else {
            0
        },
        8,
    );
    crate::codec::lemma_le_val_of_le_bytes(
        if b.alive {
            1
        } else {
            0
        },
        8,
    );
    assert(a.alive == b.alive);
    let la = a.comps.map_values(|c: (u64, Seq<u8>)| payload_comp(c));
    let lb = b.comps.map_values(|c: (u64, Seq<u8>)| payload_comp(c));
    assert(enc_blob_list(la) =~= pa.subrange(16, pa.len() as int));
    assert(enc_blob_list(lb) =~= pb.subrange(16, pb.len() as int));
    assert(enc_blob_list(la).len() < 0x1_0000_0000_0000_0000);
    lemma_enc_blob_list_injective(la, lb);
    assert forall|j: int| 0 <= j < a.comps.len() implies #[trigger] a.comps[j] == b.comps[j] by {
        assert(la[j] == payload_comp(a.comps[j]));
        assert(lb[j] == payload_comp(b.comps[j]));
        lemma_payload_comp_injective(a.comps[j], b.comps[j]);
    }
    assert(a.comps =~= b.comps);
}

/// Resource entry payloads identify their entries (for entries small
/// enough to exist in memory).
pub proof fn lemma_payload_res_entry_injective(
    a: (Seq<u8>, Option<crate::resources::ResValModel>),
    b: (Seq<u8>, Option<crate::resources::ResValModel>),
)
    requires
        payload_res_entry(a) == payload_res_entry(b),
        payload_res_entry(a).len() < 0x1_0000_0000_0000_0000,
    ensures
        a == b,
{
    lemma_enc_u64_props(a.0.len() as u64);
    lemma_enc_u64_props(b.0.len() as u64);
    lemma_enc_u64_props(0);
    lemma_enc_u64_props(1);
    crate::codec::lemma_pow256_8();
    let pa = payload_res_entry(a);
    let pb = payload_res_entry(b);
    assert(pa.len() >= 8 + a.0.len() && pb.len() >= 8 + b.0.len());
    assert(a.0.len() < 0x1_0000_0000_0000_0000 && b.0.len() < 0x1_0000_0000_0000_0000);
    assert(enc_u64(a.0.len() as u64) =~= pa.subrange(0, 8));
    assert(enc_u64(b.0.len() as u64) =~= pb.subrange(0, 8));
    crate::codec::lemma_le_val_of_le_bytes(a.0.len() as u64 as int, 8);
    crate::codec::lemma_le_val_of_le_bytes(b.0.len() as u64 as int, 8);
    assert(a.0.len() == b.0.len());
    assert(a.0 =~= pa.subrange(8, 8 + a.0.len() as int));
    assert(b.0 =~= pb.subrange(8, 8 + b.0.len() as int));
    assert(a.0 == b.0);
    let ta = pa.subrange(8 + a.0.len() as int, pa.len() as int);
    let tb = pb.subrange(8 + b.0.len() as int, pb.len() as int);
    assert(ta == tb);
    match a.1 {
        None => {
            assert(ta =~= enc_u64(0));
            match b.1 {
                None => {},
                Some(vb) => {
                    assert(tb =~= enc_u64(1) + enc_resval(vb));
                    lemma_enc_resval_len_lb(vb);
                    assert(false);
                },
            }
        },
        Some(va) => {
            assert(ta =~= enc_u64(1) + enc_resval(va));
            match b.1 {
                None => {
                    assert(tb =~= enc_u64(0));
                    lemma_enc_resval_len_lb(va);
                    assert(false);
                },
                Some(vb) => {
                    assert(tb =~= enc_u64(1) + enc_resval(vb));
                    assert(enc_resval(va) =~= ta.subrange(8, ta.len() as int));
                    assert(enc_resval(vb) =~= tb.subrange(8, tb.len() as int));
                    lemma_enc_resval_injective(va, vb);
                },
            }
        },
    }
}

/// A resource value encoding is at least its kind word.
pub proof fn lemma_enc_resval_len_lb(v: crate::resources::ResValModel)
    ensures
        enc_resval(v).len() >= 8,
{
    lemma_enc_u64_props(0);
    lemma_enc_u64_props(1);
    lemma_enc_u64_props(2);
}

/// Resource value encodings identify their values.
pub proof fn lemma_enc_resval_injective(
    a: crate::resources::ResValModel,
    b: crate::resources::ResValModel,
)
    requires
        enc_resval(a) == enc_resval(b),
        enc_resval(a).len() < 0x1_0000_0000_0000_0000,
    ensures
        a == b,
{
    lemma_enc_u64_props(0);
    lemma_enc_u64_props(1);
    lemma_enc_u64_props(2);
    crate::codec::lemma_pow256_8();
    crate::codec::lemma_le_val_of_le_bytes(0, 8);
    crate::codec::lemma_le_val_of_le_bytes(1, 8);
    crate::codec::lemma_le_val_of_le_bytes(2, 8);
    let pa = enc_resval(a);
    let pb = enc_resval(b);
    let ka: u64 = match a {
        crate::resources::ResValModel::Bytes(_) => 0,
        crate::resources::ResValModel::Uint(_) => 1,
        crate::resources::ResValModel::Terrain(_) => 2,
    };
    let kb: u64 = match b {
        crate::resources::ResValModel::Bytes(_) => 0,
        crate::resources::ResValModel::Uint(_) => 1,
        crate::resources::ResValModel::Terrain(_) => 2,
    };
    assert(enc_u64(ka) =~= pa.subrange(0, 8));
    assert(enc_u64(kb) =~= pb.subrange(0, 8));
    assert(ka == kb);
    match a {
        crate::resources::ResValModel::Bytes(ba) => {
            let bb = b->Bytes_0;
            lemma_enc_u64_props(ba.len() as u64);
            lemma_enc_u64_props(bb.len() as u64);
            assert(pa.len() == 16 + ba.len() && pb.len() == 16 + bb.len());
            assert(ba.len() == bb.len());
            assert(ba =~= pa.subrange(16, pa.len() as int));
            assert(bb =~= pb.subrange(16, pb.len() as int));
        },
        crate::resources::ResValModel::Uint(ua) => {
            let ub = b->Uint_0;
            lemma_enc_u64_props(ua);
            lemma_enc_u64_props(ub);
            assert(enc_u64(ua) =~= pa.subrange(8, 16));
            assert(enc_u64(ub) =~= pb.subrange(8, 16));
            crate::codec::lemma_le_val_of_le_bytes(ua as int, 8);
            crate::codec::lemma_le_val_of_le_bytes(ub as int, 8);
        },
        crate::resources::ResValModel::Terrain(psa) => {
            let psb = b->Terrain_0;
            let la = psa.map_values(|p: (i32, i32)| payload_pair(p));
            let lb = psb.map_values(|p: (i32, i32)| payload_pair(p));
            assert(enc_blob_list(la) =~= pa.subrange(8, pa.len() as int));
            assert(enc_blob_list(lb) =~= pb.subrange(8, pb.len() as int));
            assert(enc_blob_list(la).len() < 0x1_0000_0000_0000_0000);
            lemma_enc_blob_list_injective(la, lb);
            assert forall|j: int| 0 <= j < psa.len() implies #[trigger] psa[j] == psb[j] by {
                assert(la[j] == payload_pair(psa[j]));
                assert(lb[j] == payload_pair(psb[j]));
                lemma_payload_pair_injective(psa[j], psb[j]);
            }
            assert(psa =~= psb);
        },
    }
}

/// Pair payloads identify their pairs.
pub proof fn lemma_payload_pair_injective(a: (i32, i32), b: (i32, i32))
    requires
        payload_pair(a) == payload_pair(b),
    ensures
        a == b,
{
    lemma_enc_u64_props(off32(a.0));
    lemma_enc_u64_props(off32(b.0));
    lemma_enc_u64_props(off32(a.1));
    lemma_enc_u64_props(off32(b.1));
    crate::codec::lemma_pow256_8();
    assert(enc_u64(off32(a.0)) =~= payload_pair(a).subrange(0, 8));
    assert(enc_u64(off32(b.0)) =~= payload_pair(b).subrange(0, 8));
    assert(enc_u64(off32(a.1)) =~= payload_pair(a).subrange(8, 16));
    assert(enc_u64(off32(b.1)) =~= payload_pair(b).subrange(8, 16));
    crate::codec::lemma_le_val_of_le_bytes(off32(a.0) as int, 8);
    crate::codec::lemma_le_val_of_le_bytes(off32(b.0) as int, 8);
    crate::codec::lemma_le_val_of_le_bytes(off32(a.1) as int, 8);
    crate::codec::lemma_le_val_of_le_bytes(off32(b.1) as int, 8);
}

/// Blob list encodings identify their blob lists.
pub proof fn lemma_enc_blob_list_injective(a: Seq<Seq<u8>>, b: Seq<Seq<u8>>)
    requires
        enc_blob_list(a) == enc_blob_list(b),
        enc_blob_list(a).len() < 0x1_0000_0000_0000_0000,
    ensures
        a == b,
    decreases a.len(),
{
    lemma_enc_u64_props(a.len() as u64);
    lemma_enc_u64_props(b.len() as u64);
    crate::codec::lemma_pow256_8();
    crate::codec::lemma_enc_blobs_len_lb(a);
    crate::codec::lemma_enc_blobs_len_lb(b);
    assert(a.len() < 0x1_0000_0000_0000_0000 && b.len() < 0x1_0000_0000_0000_0000);
    assert(enc_u64(a.len() as u64) =~= enc_blob_list(a).subrange(0, 8));
    assert(enc_u64(b.len() as u64) =~= enc_blob_list(b).subrange(0, 8));
    crate::codec::lemma_le_val_of_le_bytes(a.len() as u64 as int, 8);
    crate::codec::lemma_le_val_of_le_bytes(b.len() as u64 as int, 8);
    assert(a.len() == b.len());
    assert(enc_blobs(a) =~= enc_blob_list(a).subrange(8, enc_blob_list(a).len() as int));
    assert(enc_blobs(b) =~= enc_blob_list(b).subrange(8, enc_blob_list(b).len() as int));
    lemma_enc_blobs_injective(a, b);
}

/// Runs of blob encodings with equally many blobs identify their blobs.
pub proof fn lemma_enc_blobs_injective(a: Seq<Seq<u8>>, b: Seq<Seq<u8>>)
    requires
        enc_blobs(a) == enc_blobs(b),
        enc_blobs(a).len() < 0x1_0000_0000_0000_0000,
        a.len() == b.len(),
    ensures
        a == b,
    decreases a.len(),
{
    if a.len() > 0 {
        lemma_enc_u64_props(a[0].len() as u64);
        lemma_enc_u64_props(b[0].len() as u64);
        crate::codec::lemma_pow256_8();
        let ea = enc_blobs(a);
        assert(enc_u64(a[0].len() as u64) =~= ea.subrange(0, 8));
        assert(enc_u64(b[0].len() as u64) =~= enc_blobs(b).subrange(0, 8));
        assert(a[0].len() < 0x1_0000_0000_0000_0000 && b[0].len()
            < 0x1_0000_0000_0000_0000) by {
            assert(ea.len() == 8 + a[0].len() + enc_blobs(a.drop_first()).len());
            assert(enc_blobs(b).len() == 8 + b[0].len() + enc_blobs(b.drop_first()).len());
        }
        crate::codec::lemma_le_val_of_le_bytes(a[0].len() as u64 as int, 8);
        crate::codec::lemma_le_val_of_le_bytes(b[0].len() as u64 as int, 8);
        assert(a[0].len() == b[0].len());
        assert(a[0] =~= ea.subrange(8, 8 + a[0].len() as int));
        assert(b[0] =~= enc_blobs(b).subrange(8, 8 + b[0].len() as int));
        assert(a[0] == b[0]);
        assert(enc_blobs(a.drop_first()) =~= ea.subrange(8 + a[0].len() as int, ea.len() as int));
        assert(enc_blobs(b.drop_first()) =~= enc_blobs(b).subrange(
            8 + b[0].len() as int,
            enc_blobs(b).len() as int,
        ));
        lemma_enc_blobs_injective(a.drop_first(), b.drop_first());
        assert(a =~= b) by {
            assert(a.drop_first() == b.drop_first());
            assert(forall|j: int| 1 <= j < a.len() ==> #[trigger] a[j] == a.drop_first()[j - 1]
                && b[j] == b.drop_first()[j - 1]);
        }
    } else {
        assert(a =~= b);
    }
}


/// Load hooks restore exactly what was saved: after every hook has run
/// against an envelope produced from world `w`, each registered resource id
/// holds precisely the value it held in `w` (absent resources stay absent),
/// and everything unregistered is untouched.
pub proof fn lemma_load_hooks_restore(
    rs: Seq<crate::resources::ResEntryModel>,
    w: crate::world::WorldModel,
    envres: Seq<(Seq<u8>, Option<crate::resources::ResValModel>)>,
    sl: Seq<crate::registry::SaveLoadEntryModel>,
)
    requires
        crate::resources::wf_res(rs),
        crate::world::wf_world(w),
        forall|k: int|
            0 <= k < sl.len() ==> lookup_env(envres, (#[trigger] sl[k]).name) == Some(
                crate::resources::find_res(w.resources, sl[k].res_id),
            ),
    ensures
        crate::resources::wf_res(apply_load_hooks(rs, envres, sl)),
        forall|id: u64|
            #[trigger] crate::resources::find_res(apply_load_hooks(rs, envres, sl), id) == if (
            exists|k: int| 0 <= k < sl.len() && (#[trigger] sl[k]).res_id == id) {
                crate::resources::find_res(w.resources, id)
            } else {
                crate::resources::find_res(rs, id)
            },
    decreases sl.len(),
{
    if sl.len() > 0 {
        let e = sl[0];
        let r1 = apply_hook(rs, envres, e);
        let target = crate::resources::find_res(w.resources, e.res_id);
        assert(lookup_env(envres, e.name) == Some(target));
        match target {
            Some(v) => {
                assert(crate::world::ok_for_id(e.res_id, v));
                assert(r1 == crate::resources::set_res(rs, e.res_id, v));
                assert forall|id: u64|
                    #[trigger] crate::resources::find_res(r1, id) == if id == e.res_id {
                        target
                    } else {
                        crate::resources::find_res(rs, id)
                    } by {
                    crate::resources::lemma_set_res_frame(rs, e.res_id, v, id);
                }
                assert(crate::resources::wf_res(r1)) by {
                    crate::resources::lemma_set_res_frame(rs, e.res_id, v, e.res_id);
                }
            },
            None => {
                assert(e.res_id != crate::world::CLOCK_RES);
                assert(r1 == crate::resources::del_res(rs, e.res_id));
                assert forall|id: u64|
                    #[trigger] crate::resources::find_res(r1, id) == if id == e.res_id {
                        target
                    } else {
                        crate::resources::find_res(rs, id)
                    } by {
                    crate::resources::lemma_del_res_frame(rs, e.res_id, id);
                }
                assert(crate::resources::wf_res(r1)) by {
                    crate::resources::lemma_del_res_frame(rs, e.res_id, e.res_id);
                }
            },
        }
        let tail = sl.drop_first();
        assert(forall|k: int| 0 <= k < tail.len() ==> #[trigger] tail[k] == sl[k + 1]);
        lemma_load_hooks_restore(r1, w, envres, tail);
        let out = apply_load_hooks(rs, envres, sl);
        assert(out == apply_load_hooks(r1, envres, tail));
        assert forall|id: u64|
            #[trigger] crate::resources::find_res(out, id) == if (exists|k: int|
                0 <= k < sl.len() && (#[trigger] sl[k]).res_id == id) {
                crate::resources::find_res(w.resources, id)
            } else {
                crate::resources::find_res(rs, id)
            } by {
            if exists|k: int| 0 <= k < tail.len() && (#[trigger] tail[k]).res_id == id {
                let k = choose|k: int| 0 <= k < tail.len() && (#[trigger] tail[k]).res_id == id;
                assert(sl[k + 1].res_id == id);
            } else {
                if id == e.res_id {
                    assert(sl[0].res_id == id);
                    assert(crate::resources::find_res(out, id) == crate::resources::find_res(
                        r1,
                        id,
                    ));
                } else {
                    if exists|k: int| 0 <= k < sl.len() && (#[trigger] sl[k]).res_id == id {
                        let k = choose|k: int|
                            0 <= k < sl.len() && (#[trigger] sl[k]).res_id == id;
                        assert(k > 0);
                        assert(tail[k - 1].res_id == id);
                        assert(false);
                    }
                }
            }
        }
    }
}

/// The round trip law: loading a save of any well-formed world restores a
/// world with the same fingerprints — the component table, the tick
/// counter, and every registered resource group hash match.
pub proof fn lemma_save_load_round_trip(
    w: crate::world::WorldModel,
    regs: crate::registry::RegistriesModel,
)
    requires
        crate::world::wf_world(w),
        crate::registry::wf_registries(regs),
    ensures
        wf_env(env_of(w, regs)),
        env_of(w, regs).version == version_bytes(),
        hashes_model(world_from_env(env_of(w, regs), regs), regs) == hashes_model(w, regs),
{
    let env = env_of(w, regs);
    let tags = regs.comp_tags;
    assert(wf_env(env)) by {
        assert forall|i: int| 0 <= i < env.slots.len() implies wf_comps(
            (#[trigger] env.slots[i]).comps,
        ) by {
            assert(env.slots[i] == restrict_slot(w.slots[i], tags));
            lemma_filter_comps_wf(w.slots[i].comps, tags);
        }
    }
    let w2 = world_from_env(env, regs);
    // the component table re-encodes identically: restriction is idempotent
    assert(restrict_store(w2.slots, tags) =~~= restrict_store(w.slots, tags)) by {
        assert forall|i: int| 0 <= i < w.slots.len() implies #[trigger] restrict_store(
            w2.slots,
            tags,
        )[i] == restrict_store(w.slots, tags)[i] by {
            assert(w2.slots[i] == restrict_slot(w.slots[i], tags));
            assert(restrict_store(w2.slots, tags)[i] == restrict_slot(w2.slots[i], tags));
            assert(restrict_store(w.slots, tags)[i] == restrict_slot(w.slots[i], tags));
            lemma_filter_comps_idempotent(w.slots[i].comps, tags);
            assert(restrict_slot(w2.slots[i], tags) =~~= restrict_slot(w.slots[i], tags));
        }
    }
    // every registered resource group carries its saved value again
    let base = crate::world::new_world_model(0, regs).resources;
    let envres = env.res;
    assert forall|k: int|
        0 <= k < regs.saveload.len() implies lookup_env(
        envres,
        (#[trigger] regs.saveload[k]).name,
    ) == Some(crate::resources::find_res(w.resources, regs.saveload[k].res_id)) by {
        assert(envres[k] == (
            regs.saveload[k].name,
            crate::resources::find_res(w.resources, regs.saveload[k].res_id),
        ));
        assert(forall|j: int|
            0 <= j < k ==> (#[trigger] envres[j]).0 == regs.saveload[j].name
                && regs.saveload[j].name != regs.saveload[k].name);
        lemma_lookup_env_unique(envres, regs.saveload[k].name, k);
    }
    assert(crate::resources::wf_res(base) && crate::resources::find_res(
        base,
        crate::world::CLOCK_RES,
    ) is Some) by {
        crate::world::lemma_new_world_model_wf(regs);
    }
    lemma_load_hooks_restore(base, w, envres, regs.saveload);
    // assemble the fingerprint maps
    let ha = hashes_model(w2, regs);
    let hb = hashes_model(w, regs);
    assert(ha =~~= hb) by {
        assert(ha.len() == 2 + regs.saveload.len() && hb.len() == 2 + regs.saveload.len());
        assert(ha[0] == hb[0]);
        assert(ha[1] == hb[1]) by {
            assert(restrict_store(w2.slots, tags).map_values(|s: SlotModel| payload_slot(s))
                == restrict_store(w.slots, tags).map_values(|s: SlotModel| payload_slot(s)));
        }
        assert forall|j: int| 2 <= j < ha.len() implies ha[j] == hb[j] by {
            let e = regs.saveload[j - 2];
            assert(ha[j] == (
                e.name,
                crate::hashing::fnv64(
                    opt_resval_bytes(crate::resources::find_res(w2.resources, e.res_id)),
                ),
            ));
            assert(hb[j] == (
                e.name,
                crate::hashing::fnv64(
                    opt_resval_bytes(crate::resources::find_res(w.resources, e.res_id)),
                ),
            ));
            assert(crate::resources::find_res(w2.resources, e.res_id)
                == crate::resources::find_res(w.resources, e.res_id)) by {
                assert(exists|k: int|
                    0 <= k < regs.saveload.len() && (#[trigger] regs.saveload[k]).res_id
                        == e.res_id) by {
                    assert(regs.saveload[j - 2].res_id == e.res_id);
                }
            }
        }
    }
}

} // verus!
