//! Little-endian byte codecs for the save pipeline.
//!
//! Every integer is written as 8 little-endian bytes and every byte string is
//! length-prefixed, so the whole save format is self-delimiting. Each decoder
//! carries two guarantees: whatever it accepts re-encodes to exactly the bytes
//! it consumed, and any well-formed encoding placed at the read position is
//! decoded to exactly the value that was encoded.

use vstd::prelude::*;

verus! {

/// 256^k.
pub open spec fn pow256(k: nat) -> int
    decreases k,
{
    if k == 0 {
        1
    } else {
        256 * pow256((k - 1) as nat)
    }
}

/// The `k` little-endian bytes of the non-negative integer `n`.
pub open spec fn le_bytes(n: int, k: nat) -> Seq<u8>
    decreases k,
{
    if k == 0 {
        Seq::empty()
    } else {
        seq![(n % 256) as u8] + le_bytes(n / 256, (k - 1) as nat)
    }
}

/// The integer denoted by a little-endian byte string.
pub open spec fn le_val(s: Seq<u8>) -> int
    decreases s.len(),
{
    if s.len() == 0 {
        0
    } else {
        s[0] + 256 * le_val(s.drop_first())
    }
}

pub proof fn lemma_pow256_mono(a: nat, b: nat)
    requires
        a <= b,
    ensures
        pow256(a) <= pow256(b),
    decreases b,
{
    if a < b {
        lemma_pow256_mono(a, (b - 1) as nat);
        assert(pow256((b - 1) as nat) <= 256 * pow256((b - 1) as nat)) by {
            lemma_pow256_pos((b - 1) as nat);
        }
    }
}

pub proof fn lemma_pow256_pos(k: nat)
    ensures
        pow256(k) >= 1,
    decreases k,
{
    if k > 0 {
        lemma_pow256_pos((k - 1) as nat);
    }
}

pub proof fn lemma_le_val_bounds(s: Seq<u8>)
    ensures
        0 <= le_val(s) < pow256(s.len()),
    decreases s.len(),
{
    if s.len() > 0 {
        lemma_le_val_bounds(s.drop_first());
    }
}

/// Reading the bytes of `n` back gives `n`.
pub proof fn lemma_le_val_of_le_bytes(n: int, k: nat)
    requires
        0 <= n < pow256(k),
    ensures
        le_bytes(n, k).len() == k,
        le_val(le_bytes(n, k)) == n,
    decreases k,
{
    if k > 0 {
        assert(n / 256 < pow256((k - 1) as nat)) by {
            assert(n < 256 * pow256((k - 1) as nat));
        }
        lemma_le_val_of_le_bytes(n / 256, (k - 1) as nat);
        let s = le_bytes(n, k);
        assert(s.drop_first() =~= le_bytes(n / 256, (k - 1) as nat));
    }
}

/// Writing the integer a byte string denotes gives that byte string back.
pub proof fn lemma_le_bytes_of_le_val(s: Seq<u8>)
    ensures
        le_bytes(le_val(s), s.len()) =~= s,
    decreases s.len(),
{
    if s.len() > 0 {
        let n = le_val(s);
        let t = s.drop_first();
        lemma_le_val_bounds(t);
        assert(n == s[0] + 256 * le_val(t));
        assert(n % 256 == s[0] && n / 256 == le_val(t)) by {
            assert(0 <= s[0] < 256);
        }
        lemma_le_bytes_of_le_val(t);
        assert(le_bytes(n, s.len()) =~= seq![(n % 256) as u8] + le_bytes(n / 256, (s.len() - 1) as nat));
    }
}

/// The encoding of a `u64`: its 8 little-endian bytes.
pub open spec fn enc_u64(v: u64) -> Seq<u8> {
    le_bytes(v as int, 8)
}

pub proof fn lemma_pow256_8()
    ensures
        pow256(8) == 0x1_0000_0000_0000_0000,
        pow256(4) == 0x1_0000_0000,
{
    reveal_with_fuel(pow256, 9);
}

pub proof fn lemma_enc_u64_props(v: u64)
    ensures
        enc_u64(v).len() == 8,
        le_val(enc_u64(v)) == v,
{
    lemma_pow256_8();
    lemma_le_val_of_le_bytes(v as int, 8);
}

/// `pat` occurs in `input` exactly at position `i`.
pub open spec fn matches_at(input: Seq<u8>, i: int, pat: Seq<u8>) -> bool {
    &&& 0 <= i
    &&& i + pat.len() <= input.len()
    &&& input.subrange(i, i + pat.len()) == pat
}

/// Appends the 8 little-endian bytes of `v`.
pub fn push_u64(out: &mut Vec<u8>, v: u64)
    ensures
        final(out)@ == old(out)@ + enc_u64(v),
{
    proof {
        lemma_pow256_8();
    }
    let ghost start = out@;
    let mut x: u64 = v;
    let mut k: usize = 0;
    while k < 8
        invariant
            0 <= k <= 8,
            x < pow256((8 - k) as nat),
            start + enc_u64(v) == out@ + le_bytes(x as int, (8 - k) as nat),
        decreases 8 - k,
    {
        let b: u8 = (x % 256) as u8;
        proof {
            assert(le_bytes(x as int, (8 - k) as nat) =~= seq![b] + le_bytes(x as int / 256, (8 - k - 1) as nat));
            assert(out@.push(b) =~= out@ + seq![b]);
            assert((out@ + seq![b]) + le_bytes(x as int / 256, (8 - k - 1) as nat)
                =~= out@ + (seq![b] + le_bytes(x as int / 256, (8 - k - 1) as nat)));
        }
        out.push(b);
        x = x / 256;
        k = k + 1;
    }
    proof {
        assert(le_bytes(x as int, 0) =~= Seq::<u8>::empty());
        assert(out@ + Seq::<u8>::empty() =~= out@);
    }
}

/// Reads a `u64` at position `i`: 8 little-endian bytes.
pub fn dec_u64(input: &Vec<u8>, i: usize) -> (r: Option<(u64, usize)>)
    ensures
        r matches Some(p) ==> p.1 == i + 8 && matches_at(input@, i as int, enc_u64(p.0)),
        forall|v: u64| matches_at(input@, i as int, #[trigger] enc_u64(v))
            ==> r == Some((v, (i + 8) as usize)),
        r is None ==> input@.len() < i + 8,
{
    proof {
        lemma_pow256_8();
    }
    if input.len() < 8 || i > input.len() - 8 {
        proof {
            assert forall|v: u64| !matches_at(input@, i as int, #[trigger] enc_u64(v)) by {
                lemma_enc_u64_props(v);
            }
        }
        return None;
    }
    let ghost s = input@.subrange(i as int, i + 8);
    let ilen = input.len();
    let mut v: u64 = 0;
    let mut k: usize = 8;
    while k > 0
        invariant
            0 <= k <= 8,
            i + 8 <= ilen,
            ilen == input@.len(),
            s == input@.subrange(i as int, i + 8),
            v == le_val(s.skip(k as int)),
            v < pow256((8 - k) as nat),
        decreases k,
    {
        proof {
            lemma_le_val_bounds(s.skip(k - 1));
            assert(s.skip(k - 1).drop_first() =~= s.skip(k as int));
            assert(s.skip(k - 1)[0] == s[k - 1] && s[k - 1] == input@[i + k - 1]);
            assert(256 * pow256((8 - k) as nat) == pow256((8 - k + 1) as nat));
            lemma_pow256_mono((8 - k + 1) as nat, 8);
            lemma_pow256_8();
            lemma_pow256_pos((8 - k) as nat);
            assert(v * 256 + 255 < pow256((8 - k + 1) as nat)) by {
                assert(v <= pow256((8 - k) as nat) - 1);
                assert(v * 256 <= (pow256((8 - k) as nat) - 1) * 256) by (nonlinear_arith)
                    requires
                        v <= pow256((8 - k) as nat) - 1,
                        pow256((8 - k) as nat) >= 1,
                ;
            }
        }
        v = v * 256 + (input[i + k - 1] as u64);
        k = k - 1;
    }
    proof {
        assert(s.skip(0) =~= s);
        lemma_le_bytes_of_le_val(s);
        assert(matches_at(input@, i as int, enc_u64(v)));
        assert forall|w: u64| matches_at(input@, i as int, #[trigger] enc_u64(w)) implies w == v by {
            lemma_enc_u64_props(w);
            assert(enc_u64(w) == s);
        }
    }
    Some((v, i + 8))
}

/// The encoding of a byte string: a `u64` length prefix, then the bytes.
pub open spec fn enc_bytes(s: Seq<u8>) -> Seq<u8> {
    enc_u64(s.len() as u64) + s
}

/// Appends the length-prefixed bytes of `data`.
pub fn push_bytes(out: &mut Vec<u8>, data: &Vec<u8>)
    ensures
        final(out)@ == old(out)@ + enc_bytes(data@),
{
    push_u64(out, data.len() as u64);
    let ghost mid = out@;
    let mut k: usize = 0;
    while k < data.len()
        invariant
            0 <= k <= data@.len(),
            out@ == mid + data@.take(k as int),
        decreases data@.len() - k,
    {
        proof {
            assert((mid + data@.take(k as int)).push(data@[k as int]) =~= mid + data@.take(k + 1));
        }
        out.push(data[k]);
        k = k + 1;
    }
    proof {
        assert(data@.take(data@.len() as int) =~= data@);
        assert(mid + data@ =~= old(out)@ + enc_bytes(data@));
    }
}

/// Reads a length-prefixed byte string at position `i`.
pub fn dec_bytes(input: &Vec<u8>, i: usize) -> (r: Option<(Vec<u8>, usize)>)
    ensures
        r matches Some(p) ==> p.1 == i + 8 + p.0@.len() && matches_at(input@, i as int, enc_bytes(p.0@)),
        forall|s: Seq<u8>| matches_at(input@, i as int, #[trigger] enc_bytes(s))
            ==> (r matches Some(p) && p.0@ == s && p.1 == i + 8 + s.len()),
    {
    let r0 = dec_u64(input, i);
    proof {
        if r0 is Some {
            lemma_enc_u64_props(r0->Some_0.0);
        }
    }
    let (n, j) = match r0 {
        Some(p) => p,
        None => {
            proof {
                assert forall|s: Seq<u8>| !matches_at(input@, i as int, #[trigger] enc_bytes(s)) by {
                    lemma_enc_u64_props(s.len() as u64);
                    if matches_at(input@, i as int, enc_bytes(s)) {
                        assert(matches_at(input@, i as int, enc_u64(s.len() as u64))) by {
                            assert(input@.subrange(i as int, i + 8) =~= enc_bytes(s).subrange(0, 8));
                            assert(enc_bytes(s).subrange(0, 8) =~= enc_u64(s.len() as u64));
                        }
                    }
                }
            }
            return None;
        },
    };
    if n > (input.len() - j) as u64 {
        proof {
            assert forall|s: Seq<u8>| !matches_at(input@, i as int, #[trigger] enc_bytes(s)) by {
                lemma_enc_u64_props(s.len() as u64);
                if matches_at(input@, i as int, enc_bytes(s)) {
                    assert(matches_at(input@, i as int, enc_u64(s.len() as u64))) by {
                        assert(input@.subrange(i as int, i + 8) =~= enc_bytes(s).subrange(0, 8));
                        assert(enc_bytes(s).subrange(0, 8) =~= enc_u64(s.len() as u64));
                    }
                    assert(s.len() as u64 == n);
                }
            }
        }
        return None;
    }
    let nn = n as usize;
    let ilen = input.len();
    assert(j + nn <= ilen);
    let mut data: Vec<u8> = Vec::new();
    let mut k: usize = 0;
    while k < nn
        invariant
            0 <= k <= nn,
            j + nn <= ilen,
            ilen == input@.len(),
            j == i + 8,
            data@ == input@.subrange(j as int, j + k),
        decreases nn - k,
    {
        proof {
            assert(input@.subrange(j as int, j + k).push(input@[j + k]) =~= input@.subrange(
                j as int,
                j + k + 1,
            ));
        }
        data.push(input[j + k]);
        k = k + 1;
    }
    proof {
        lemma_enc_u64_props(data@.len() as u64);
        assert(enc_bytes(data@).len() == 8 + nn);
        assert(input@.subrange(i as int, i + 8 + nn) =~= enc_u64(n) + data@);
        assert(enc_bytes(data@) =~= enc_u64(n) + data@);
        assert forall|s: Seq<u8>| matches_at(input@, i as int, #[trigger] enc_bytes(s)) implies s
            == data@ by {
            lemma_enc_u64_props(s.len() as u64);
            assert(matches_at(input@, i as int, enc_u64(s.len() as u64))) by {
                assert(input@.subrange(i as int, i + 8) =~= enc_bytes(s).subrange(0, 8));
                assert(enc_bytes(s).subrange(0, 8) =~= enc_u64(s.len() as u64));
            }
            assert(s.len() as u64 == n);
            assert(s =~= input@.subrange(j as int, j + nn)) by {
                assert(enc_bytes(s).subrange(8, 8 + s.len() as int) =~= s);
                assert(input@.subrange(i as int, i + 8 + nn).subrange(8, 8 + nn) =~= input@.subrange(
                    j as int,
                    j + nn,
                ));
            }
        }
    }
    Some((data, j + nn))
}

/// The byte strings a vector of byte vectors denotes.
pub open spec fn blob_views(v: Seq<Vec<u8>>) -> Seq<Seq<u8>> {
    v.map_values(|b: Vec<u8>| b@)
}

/// The encodings of a list of byte strings, concatenated.
pub open spec fn enc_blobs(bs: Seq<Seq<u8>>) -> Seq<u8>
    decreases bs.len(),
{
    if bs.len() == 0 {
        Seq::empty()
    } else {
        enc_bytes(bs[0]) + enc_blobs(bs.drop_first())
    }
}

/// The encoding of a list of byte strings: a count, then each string
/// length-prefixed.
pub open spec fn enc_blob_list(bs: Seq<Seq<u8>>) -> Seq<u8> {
    enc_u64(bs.len() as u64) + enc_blobs(bs)
}

/// Splitting a run of blob encodings after the first `k` items.
pub proof fn lemma_enc_blobs_split(bs: Seq<Seq<u8>>, k: int)
    requires
        0 <= k <= bs.len(),
    ensures
        enc_blobs(bs) == enc_blobs(bs.take(k)) + enc_blobs(bs.skip(k)),
    decreases k,
{
    if k == 0 {
        assert(bs.take(0) =~= Seq::<Seq<u8>>::empty());
        assert(bs.skip(0) =~= bs);
        assert(enc_blobs(bs) =~= Seq::<u8>::empty() + enc_blobs(bs));
    } else {
        lemma_enc_blobs_split(bs.drop_first(), k - 1);
        assert(bs.take(k)[0] == bs[0]);
        assert(bs.take(k).drop_first() =~= bs.drop_first().take(k - 1));
        assert(bs.skip(k) =~= bs.drop_first().skip(k - 1));
        assert(enc_blobs(bs) == enc_bytes(bs[0]) + enc_blobs(bs.drop_first()));
        assert(enc_blobs(bs.take(k)) == enc_bytes(bs[0]) + enc_blobs(bs.drop_first().take(k - 1)));
        assert((enc_bytes(bs[0]) + (enc_blobs(bs.drop_first().take(k - 1)) + enc_blobs(
            bs.skip(k),
        ))) =~= (enc_bytes(bs[0]) + enc_blobs(bs.drop_first().take(k - 1))) + enc_blobs(
            bs.skip(k),
        ));
    }
}

/// Appends the encoding of a list of byte strings.
#[verifier::loop_isolation(false)]
pub fn push_blob_list(out: &mut Vec<u8>, blobs: &Vec<Vec<u8>>)
    ensures
        final(out)@ == old(out)@ + enc_blob_list(blob_views(blobs@)),
{
    push_u64(out, blobs.len() as u64);
    let ghost bs = blob_views(blobs@);
    let ghost mid = out@;
    let n = blobs.len();
    let mut k: usize = 0;
    while k < n
        invariant
            0 <= k <= n,
            n == bs.len(),
            bs == blob_views(blobs@),
            out@ == mid + enc_blobs(bs.take(k as int)),
        decreases n - k,
    {
        proof {
            lemma_enc_blobs_split(bs.take(k + 1), k as int);
            assert(bs.take(k + 1).take(k as int) =~= bs.take(k as int));
            assert(bs.take(k + 1).skip(k as int) =~= seq![bs[k as int]]);
            lemma_enc_blobs_singleton(bs[k as int]);
            assert((mid + enc_blobs(bs.take(k as int))) + enc_bytes(bs[k as int]) =~= mid
                + enc_blobs(bs.take(k + 1)));
        }
        push_bytes(out, &blobs[k]);
        k = k + 1;
    }
    proof {
        assert(bs.take(n as int) =~= bs);
    }
}

/// Each encoded blob takes at least its 8-byte length prefix.
pub proof fn lemma_enc_blobs_len_lb(bs: Seq<Seq<u8>>)
    ensures
        enc_blobs(bs).len() >= 8 * bs.len(),
    decreases bs.len(),
{
    if bs.len() > 0 {
        lemma_enc_blobs_len_lb(bs.drop_first());
        lemma_enc_u64_props(bs[0].len() as u64);
    }
}

/// A singleton run of blob encodings.
pub proof fn lemma_enc_blobs_singleton(b: Seq<u8>)
    ensures
        enc_blobs(seq![b]) == enc_bytes(b),
{
    assert(seq![b].drop_first() =~= Seq::<Seq<u8>>::empty());
    assert(enc_blobs(seq![b]) == enc_bytes(b) + enc_blobs(Seq::<Seq<u8>>::empty()));
    assert(enc_bytes(b) + Seq::<u8>::empty() =~= enc_bytes(b));
}

/// Reads a list of byte strings at position `i`.
#[verifier::loop_isolation(false)]
pub fn dec_blob_list(input: &Vec<u8>, i: usize) -> (r: Option<(Vec<Vec<u8>>, usize)>)
    ensures
        r matches Some(p) ==> matches_at(input@, i as int, enc_blob_list(blob_views(p.0@)))
            && p.1 == i + enc_blob_list(blob_views(p.0@)).len(),
        forall|bs: Seq<Seq<u8>>| matches_at(input@, i as int, #[trigger] enc_blob_list(bs))
            ==> (r matches Some(p) && blob_views(p.0@) == bs && p.1 == i + enc_blob_list(
            bs,
        ).len()),
{
    proof {
        lemma_pow256_8();
    }
    let ilen = input.len();
    let r0 = dec_u64(input, i);
    let (n, j0) = match r0 {
        Some(p) => p,
        None => {
            proof {
                assert forall|bs: Seq<Seq<u8>>|
                    !matches_at(input@, i as int, #[trigger] enc_blob_list(bs)) by {
                    lemma_enc_u64_props(bs.len() as u64);
                }
            }
            return None;
        },
    };
    proof {
        lemma_enc_u64_props(n);
        assert forall|bs: Seq<Seq<u8>>|
            matches_at(input@, i as int, #[trigger] enc_blob_list(bs)) implies bs.len() == n by {
            lemma_enc_blobs_len_lb(bs);
            lemma_enc_u64_props(bs.len() as u64);
            assert(enc_blob_list(bs).len() == 8 + enc_blobs(bs).len());
            assert(8 * bs.len() <= enc_blobs(bs).len());
            assert(bs.len() < 0x1_0000_0000_0000_0000);
            assert(input@.subrange(i as int, i + 8) =~= enc_blob_list(bs).subrange(0, 8));
            assert(enc_blob_list(bs).subrange(0, 8) =~= enc_u64(bs.len() as u64));
            assert(matches_at(input@, i as int, enc_u64(bs.len() as u64)));
        }
    }
    let mut blobs: Vec<Vec<u8>> = Vec::new();
    let mut j: usize = j0;
    let mut k: u64 = 0;
    while k < n
        invariant
            0 <= k <= n,
            j0 == i + 8,
            i + 8 <= j <= ilen,
            ilen == input@.len(),
            blobs@.len() == k,
            input@.subrange(j0 as int, j as int) == enc_blobs(blob_views(blobs@)),
            forall|bs: Seq<Seq<u8>>|
                matches_at(input@, i as int, #[trigger] enc_blob_list(bs)) ==> bs.take(k as int)
                    == blob_views(blobs@) && j == j0 + enc_blobs(bs.take(k as int)).len(),
        decreases n - k,
    {
        let ghost pre_blobs = blob_views(blobs@);
        let ghost pre_j = j;
        proof {
            assert forall|bs: Seq<Seq<u8>>|
                matches_at(input@, i as int, #[trigger] enc_blob_list(bs)) implies matches_at(
                input@,
                pre_j as int,
                enc_bytes(bs[k as int]),
            ) by {
                lemma_enc_blobs_split(bs, k as int);
                assert(bs.skip(k as int)[0] == bs[k as int]);
                assert(bs.skip(k as int).drop_first() =~= bs.skip(k + 1));
                assert(enc_blobs(bs.skip(k as int)) == enc_bytes(bs[k as int]) + enc_blobs(
                    bs.skip(k + 1),
                ));
                let whole = enc_blob_list(bs);
                let off = 8 + enc_blobs(bs.take(k as int)).len();
                let itemlen = enc_bytes(bs[k as int]).len() as int;
                assert forall|x: int| 0 <= x < whole.len() implies input@[i + x] == #[trigger] whole[x] by {
                    assert(input@.subrange(i as int, i + whole.len()) == whole);
                    assert(input@.subrange(i as int, i + whole.len())[x] == input@[i + x]);
                }
                assert(whole =~= enc_u64(bs.len() as u64) + (enc_blobs(bs.take(k as int)) + (
                enc_bytes(bs[k as int]) + enc_blobs(bs.skip(k + 1)))));
                assert(forall|x: int|
                    0 <= x < itemlen ==> whole[off + x] == enc_bytes(bs[k as int])[x]);
                assert(input@.subrange(pre_j as int, pre_j + itemlen) =~= enc_bytes(
                    bs[k as int],
                ));
            }
        }
        let rb = dec_bytes(input, j);
        let (b, j2) = match rb {
            Some(p) => p,
            None => {
                return None;
            },
        };
        blobs.push(b);
        j = j2;
        k = k + 1;
        proof {
            let nb = blob_views(blobs@);
            assert(nb =~= pre_blobs.push(blobs@[blobs@.len() - 1]@));
            lemma_enc_blobs_singleton(nb[k - 1]);
            lemma_enc_u64_props(nb[k - 1].len() as u64);
            assert(input@.subrange(pre_j as int, j as int) == enc_bytes(nb[k - 1])) by {
                assert(j == pre_j + enc_bytes(nb[k - 1]).len());
            }
            assert(input@.subrange(j0 as int, pre_j as int) == enc_blobs(pre_blobs));
            assert(input@.subrange(j0 as int, j as int) =~= enc_blobs(nb)) by {
                lemma_enc_blobs_split(nb, k - 1);
                assert(nb.take(k - 1) =~= pre_blobs);
                assert(nb.skip(k - 1) =~= seq![nb[k - 1]]);
                assert(input@.subrange(j0 as int, j as int) =~= input@.subrange(
                    j0 as int,
                    pre_j as int,
                ) + input@.subrange(pre_j as int, j as int));
            }
            assert forall|bs: Seq<Seq<u8>>|
                matches_at(input@, i as int, #[trigger] enc_blob_list(bs)) implies bs.take(
                k as int,
            ) == nb && j == j0 + enc_blobs(bs.take(k as int)).len() by {
                assert(bs.take(k - 1) == pre_blobs);
                assert(bs.take(k as int) =~= bs.take(k - 1).push(bs[k - 1]));
                lemma_enc_blobs_split(bs.take(k as int), k - 1);
                assert(bs.take(k as int).take(k - 1) =~= bs.take(k - 1));
                assert(bs.take(k as int).skip(k - 1) =~= seq![bs[k - 1]]);
                lemma_enc_blobs_singleton(bs[k - 1]);
                assert(bs.take(k as int) =~= nb);
            }
        }
    }
    proof {
        assert(blob_views(blobs@).len() == n);
        assert(input@.subrange(i as int, j as int) =~= enc_u64(n) + input@.subrange(
            j0 as int,
            j as int,
        ));
        assert(enc_blob_list(blob_views(blobs@)) =~= enc_u64(n) + enc_blobs(blob_views(blobs@)));
        assert(matches_at(input@, i as int, enc_blob_list(blob_views(blobs@))));
        assert forall|bs: Seq<Seq<u8>>|
            matches_at(input@, i as int, #[trigger] enc_blob_list(bs)) implies bs == blob_views(
            blobs@,
        ) by {
            assert(bs.take(n as int) =~= bs);
        }
    }
    Some((blobs, j))
}

} // verus!
