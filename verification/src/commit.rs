//! Commits: immutable, content-addressed history nodes. A commit references
//! one snapshot tree, carries a message, and names a set of parent commits
//! — none for the root commit, one for a linear step, several for a merge.
//! A commit's identity is the digest of its canonical serialized form, so
//! it is a pure function of tree, message and parents.
use vstd::prelude::*;

use crate::blob::{blob_wf, Blob};
use crate::codec::{copy_range, dec_u32_at, enc_u32, lemma_enc_of_dec, lemma_seq_slice,
    lemma_u32_roundtrip, push_bytes, push_u32, read_u32};
use crate::directory::{name_bytes, name_ok, lemma_name_bytes_injective};
use crate::order::{bytes_less, bytes_lt, lemma_bytes_lt_transitive};

verus! {

/// One history node: the tree it snapshots, its message, and its parents,
/// kept strictly sorted by digest bytes (hence a set, canonically ordered).
#[derive(Debug)]
pub struct Commit {
    pub directory: Blob,
    pub message: String,
    pub previous: Vec<Blob>,
}

/// Well-formedness: a digest-sized tree reference, a message and a parent
/// count that fit their length fields, parents digest-sized and strictly
/// ascending.
pub open spec fn commit_wf(c: Commit) -> bool {
    &&& blob_wf(c.directory)
    &&& name_ok(c.message@)
    &&& c.previous@.len() < 0x1_0000_0000
    &&& (forall|i: int| 0 <= i < c.previous@.len() ==> blob_wf(#[trigger] c.previous@[i]))
    &&& (forall|i: int, j: int|
        0 <= i < j < c.previous@.len() ==> bytes_lt(
            (#[trigger] c.previous@[i])@,
            (#[trigger] c.previous@[j])@,
        ))
}

pub open spec fn enc_blobs(s: Seq<Blob>) -> Seq<u8>
    decreases s,
{
    if s.len() == 0 {
        Seq::empty()
    } else {
        s[0]@ + enc_blobs(s.drop_first())
    }
}

/// The serialized form of a commit: tree digest, message length, message
/// bytes, parent count, parent digests in ascending order.
pub open spec fn enc_commit(c: Commit) -> Seq<u8> {
    c.directory@ + enc_u32(name_bytes(c.message@).len() as int) + name_bytes(c.message@)
        + enc_u32(c.previous@.len() as int) + enc_blobs(c.previous@)
}

/// Serialization is deterministic: a commit's bytes, and so its identity,
/// are a function of its contents alone.
pub proof fn lemma_commit_enc_deterministic(a: Commit, b: Commit)
    requires
        a.directory@ == b.directory@,
        a.message@ == b.message@,
        a.previous@.len() == b.previous@.len(),
        forall|i: int| 0 <= i < a.previous@.len() ==> (#[trigger] a.previous@[i])@
            == b.previous@[i]@,
    ensures
        enc_commit(a) == enc_commit(b),
{
    lemma_enc_blobs_congruent(a.previous@, b.previous@);
}

proof fn lemma_enc_blobs_congruent(a: Seq<Blob>, b: Seq<Blob>)
    requires
        a.len() == b.len(),
        forall|i: int| 0 <= i < a.len() ==> (#[trigger] a[i])@ == b[i]@,
    ensures
        enc_blobs(a) == enc_blobs(b),
    decreases a,
{
    if a.len() == 0 {
        assert(enc_blobs(a) =~= enc_blobs(b));
    } else {
        assert(a[0]@ == b[0]@);
        assert forall|i: int| 0 <= i < a.drop_first().len() implies (
        #[trigger] a.drop_first()[i])@ == b.drop_first()[i]@ by {
            assert(a.drop_first()[i] == a[i + 1]);
            assert(b.drop_first()[i] == b[i + 1]);
        }
        lemma_enc_blobs_congruent(a.drop_first(), b.drop_first());
        assert(enc_blobs(a) =~= enc_blobs(b));
    }
}

proof fn lemma_enc_blobs_len(s: Seq<Blob>)
    requires
        forall|i: int| 0 <= i < s.len() ==> blob_wf(#[trigger] s[i]),
    ensures
        enc_blobs(s).len() == 32 * s.len(),
        forall|i: int, j: int|
            0 <= i < s.len() && 0 <= j < 32 ==> #[trigger] enc_blobs(s)[32 * i + j] == s[i]@[j],
    decreases s,
{
    if s.len() > 0 {
        assert(forall|i: int|
            0 <= i < s.drop_first().len() ==> blob_wf(#[trigger] s.drop_first()[i]));
        lemma_enc_blobs_len(s.drop_first());
        assert forall|i: int, j: int| 0 <= i < s.len() && 0 <= j < 32 implies #[trigger] enc_blobs(
            s,
        )[32 * i + j] == s[i]@[j] by {
            if i == 0 {
                assert(enc_blobs(s)[32 * i + j] == s[0]@[j]);
            } else {
                assert(enc_blobs(s)[32 * i + j] == enc_blobs(s.drop_first())[32 * (i - 1) + j]);
                assert(enc_blobs(s.drop_first())[32 * (i - 1) + j] == s.drop_first()[i - 1]@[j]);
                assert(s.drop_first()[i - 1] == s[i]);
            }
        }
    }
}

/// Serialization of commits is injective: well-formed commits with equal
/// bytes have equal tree reference, message, and parent set. Conversely, a
/// different parent set, message, or tree yields different bytes.
pub proof fn lemma_commit_enc_injective(a: Commit, b: Commit)
    requires
        commit_wf(a),
        commit_wf(b),
        enc_commit(a) == enc_commit(b),
    ensures
        a.directory@ == b.directory@,
        a.message@ == b.message@,
        a.previous@.len() == b.previous@.len(),
        forall|i: int| 0 <= i < a.previous@.len() ==> (#[trigger] a.previous@[i])@
            == b.previous@[i]@,
{
    let ea = enc_commit(a);
    let ma = name_bytes(a.message@);
    let mb = name_bytes(b.message@);
    let la = ma.len() as int;
    let lb = mb.len() as int;
    let wa = a.directory@ + enc_u32(la) + ma + enc_u32(a.previous@.len() as int) + enc_blobs(
        a.previous@,
    );
    let wb = b.directory@ + enc_u32(lb) + mb + enc_u32(b.previous@.len() as int) + enc_blobs(
        b.previous@,
    );
    assert(wa == wb);
    assert(ea == wa);
    assert(ea.subrange(0, ea.len() as int) =~= ea);
    // message lengths agree
    lemma_seq_slice(ea, 0, wa, 32, 4);
    lemma_seq_slice(ea, 0, wb, 32, 4);
    assert(wa.subrange(32, 36) =~= enc_u32((la as u32) as int)) by {
        assert forall|i: int| 0 <= i < 4 implies #[trigger] wa.subrange(32, 36)[i] == enc_u32(
            (la as u32) as int,
        )[i] by {
            assert(wa.subrange(32, 36)[i] == wa[32 + i]);
            assert(wa[32 + i] == enc_u32(la)[i]);
        }
    }
    assert(wb.subrange(32, 36) =~= enc_u32((lb as u32) as int)) by {
        assert forall|i: int| 0 <= i < 4 implies #[trigger] wb.subrange(32, 36)[i] == enc_u32(
            (lb as u32) as int,
        )[i] by {
            assert(wb.subrange(32, 36)[i] == wb[32 + i]);
            assert(wb[32 + i] == enc_u32(lb)[i]);
        }
    }
    assert(ea.subrange(32, 36) == enc_u32((la as u32) as int));
    assert(ea.subrange(32, 36) == enc_u32((lb as u32) as int));
    lemma_u32_roundtrip(la as u32, ea, 32);
    lemma_u32_roundtrip(lb as u32, ea, 32);
    assert(la == lb);
    // tree digests agree
    assert(a.directory@ =~= b.directory@) by {
        assert forall|i: int| 0 <= i < 32 implies #[trigger] a.directory@[i]
            == b.directory@[i] by {
            assert(wa[i] == a.directory@[i]);
            assert(wb[i] == b.directory@[i]);
        }
    }
    // messages agree
    assert(ma =~= mb) by {
        assert forall|i: int| 0 <= i < la implies #[trigger] ma[i] == mb[i] by {
            assert(wa[36 + i] == ma[i]);
            assert(wb[36 + i] == mb[i]);
        }
    }
    lemma_name_bytes_injective(a.message@, b.message@);
    // parent counts agree
    let ca = a.previous@.len() as int;
    let cb = b.previous@.len() as int;
    lemma_seq_slice(ea, 0, wa, 36 + la, 4);
    assert(wa.subrange(36 + la, 36 + la + 4) =~= enc_u32((ca as u32) as int)) by {
        assert forall|i: int| 0 <= i < 4 implies #[trigger] wa.subrange(36 + la, 36 + la + 4)[i]
            == enc_u32((ca as u32) as int)[i] by {
            assert(wa.subrange(36 + la, 36 + la + 4)[i] == wa[36 + la + i]);
            assert(wa[36 + la + i] == enc_u32(ca)[i]);
        }
    }
    assert(wb.subrange(36 + lb, 36 + lb + 4) =~= enc_u32((cb as u32) as int)) by {
        assert forall|i: int| 0 <= i < 4 implies #[trigger] wb.subrange(36 + lb, 36 + lb + 4)[i]
            == enc_u32((cb as u32) as int)[i] by {
            assert(wb.subrange(36 + lb, 36 + lb + 4)[i] == wb[36 + lb + i]);
            assert(wb[36 + lb + i] == enc_u32(cb)[i]);
        }
    }
    assert(ea.subrange(36 + la, 36 + la + 4) == enc_u32((ca as u32) as int));
    assert(ea.subrange(36 + la, 36 + la + 4) == enc_u32((cb as u32) as int));
    lemma_u32_roundtrip(ca as u32, ea, 36 + la);
    lemma_u32_roundtrip(cb as u32, ea, 36 + la);
    assert(ca == cb);
    // parent digests agree
    lemma_enc_blobs_len(a.previous@);
    lemma_enc_blobs_len(b.previous@);
    assert forall|i: int| 0 <= i < a.previous@.len() implies (#[trigger] a.previous@[i])@
        == b.previous@[i]@ by {
        assert forall|j: int| 0 <= j < 32 implies #[trigger] a.previous@[i]@[j]
            == b.previous@[i]@[j] by {
            assert(enc_blobs(a.previous@)[32 * i + j] == a.previous@[i]@[j]);
            assert(enc_blobs(b.previous@)[32 * i + j] == b.previous@[i]@[j]);
            assert(wa[40 + la + 32 * i + j] == enc_blobs(a.previous@)[32 * i + j]);
            assert(wb[40 + lb + 32 * i + j] == enc_blobs(b.previous@)[32 * i + j]);
        }
        assert(a.previous@[i]@ =~= b.previous@[i]@);
    }
}

proof fn lemma_enc_blobs_snoc(s: Seq<Blob>, x: Blob)
    ensures
        enc_blobs(s.push(x)) == enc_blobs(s) + x@,
    decreases s,
{
    if s.len() == 0 {
        assert(s.push(x)[0] == x);
        assert(s.push(x).drop_first() =~= Seq::<Blob>::empty());
        assert(enc_blobs(Seq::<Blob>::empty()) =~= Seq::<u8>::empty());
        assert(enc_blobs(s.push(x)) =~= enc_blobs(s) + x@);
    } else {
        assert(s.push(x)[0] == s[0]);
        assert(s.push(x).drop_first() =~= s.drop_first().push(x));
        lemma_enc_blobs_snoc(s.drop_first(), x);
        assert(enc_blobs(s.push(x)) =~= enc_blobs(s) + x@);
    }
}

/// What any well-formed commit's encoding looks like, read off the bytes:
/// the shape every parser decision can be checked against.
proof fn lemma_commit_enc_shape(c: Commit, b: Seq<u8>)
    requires
        commit_wf(c),
        enc_commit(c) == b,
    ensures
        b.len() == 40 + name_bytes(c.message@).len() + 32 * c.previous@.len(),
        dec_u32_at(b, 32) == name_bytes(c.message@).len(),
        b.subrange(36, 36 + name_bytes(c.message@).len() as int) == name_bytes(c.message@),
        vstd::utf8::valid_utf8(b.subrange(36, 36 + name_bytes(c.message@).len() as int)),
        dec_u32_at(b, 36 + name_bytes(c.message@).len() as int) == c.previous@.len(),
        b.subrange(0, 32) == c.directory@,
        forall|i: int|
            0 <= i < c.previous@.len() ==> b.subrange(
                40 + name_bytes(c.message@).len() + 32 * i,
                40 + name_bytes(c.message@).len() + 32 * i + 32,
            ) == (#[trigger] c.previous@[i])@,
{
    broadcast use vstd::utf8::encode_utf8_valid_utf8;

    let ml = name_bytes(c.message@).len() as int;
    let pc = c.previous@.len() as int;
    let wc = c.directory@ + enc_u32(ml) + name_bytes(c.message@) + enc_u32(pc) + enc_blobs(
        c.previous@,
    );
    assert(b == wc);
    lemma_enc_blobs_len(c.previous@);
    assert(b.len() == 40 + ml + 32 * pc);
    assert(b.subrange(32, 36) =~= enc_u32((ml as u32) as int)) by {
        assert forall|i: int| 0 <= i < 4 implies #[trigger] b.subrange(32, 36)[i] == enc_u32(
            (ml as u32) as int,
        )[i] by {
            assert(b.subrange(32, 36)[i] == b[32 + i]);
            assert(wc[32 + i] == enc_u32(ml)[i]);
        }
    }
    lemma_u32_roundtrip(ml as u32, b, 32);
    assert(b.subrange(36, 36 + ml) =~= name_bytes(c.message@)) by {
        assert forall|i: int| 0 <= i < ml implies #[trigger] b.subrange(36, 36 + ml)[i]
            == name_bytes(c.message@)[i] by {
            assert(b.subrange(36, 36 + ml)[i] == b[36 + i]);
            assert(wc[36 + i] == name_bytes(c.message@)[i]);
        }
    }
    assert(b.subrange(36 + ml, 40 + ml) =~= enc_u32((pc as u32) as int)) by {
        assert forall|i: int| 0 <= i < 4 implies #[trigger] b.subrange(36 + ml, 40 + ml)[i]
            == enc_u32((pc as u32) as int)[i] by {
            assert(b.subrange(36 + ml, 40 + ml)[i] == b[36 + ml + i]);
            assert(wc[36 + ml + i] == enc_u32(pc)[i]);
        }
    }
    lemma_u32_roundtrip(pc as u32, b, 36 + ml);
    assert(b.subrange(0, 32) =~= c.directory@) by {
        assert forall|i: int| 0 <= i < 32 implies #[trigger] b.subrange(0, 32)[i]
            == c.directory@[i] by {
            assert(b.subrange(0, 32)[i] == b[i]);
            assert(wc[i] == c.directory@[i]);
        }
    }
    assert forall|i: int| 0 <= i < pc implies b.subrange(40 + ml + 32 * i, 40 + ml + 32 * i + 32)
        == (#[trigger] c.previous@[i])@ by {
        assert(b.subrange(40 + ml + 32 * i, 40 + ml + 32 * i + 32) =~= c.previous@[i]@) by {
            assert forall|j: int| 0 <= j < 32 implies #[trigger] b.subrange(
                40 + ml + 32 * i,
                40 + ml + 32 * i + 32,
            )[j] == c.previous@[i]@[j] by {
                assert(b.subrange(40 + ml + 32 * i, 40 + ml + 32 * i + 32)[j] == b[40 + ml + 32
                    * i + j]);
                assert(wc[40 + ml + 32 * i + j] == enc_blobs(c.previous@)[32 * i + j]);
                assert(enc_blobs(c.previous@)[32 * i + j] == c.previous@[i]@[j]);
            }
        }
    }
}

/// Serializes a commit into its canonical byte form.
pub fn encode_commit(c: &Commit) -> (r: Vec<u8>)
    requires
        commit_wf(*c),
    ensures
        r@ == enc_commit(*c),
{
    let mut out: Vec<u8> = Vec::new();
    push_bytes(&mut out, c.directory.0.as_slice());
    let mb = c.message.as_str().as_bytes();
    proof {
        assert(mb@ == name_bytes(c.message@));
    }
    push_u32(&mut out, mb.len() as u32);
    push_bytes(&mut out, mb);
    push_u32(&mut out, c.previous.len() as u32);
    let ghost head = out@;
    let n = c.previous.len();
    let mut i: usize = 0;
    proof {
        assert(enc_blobs(c.previous@.take(0)) =~= Seq::<u8>::empty());
        assert(out@ =~= head + enc_blobs(c.previous@.take(0)));
    }
    while i < n
        invariant
            commit_wf(*c),
            c.previous@.len() == n,
            0 <= i <= n,
            out@ == head + enc_blobs(c.previous@.take(i as int)),
        decreases n - i,
    {
        push_bytes(&mut out, c.previous[i].0.as_slice());
        proof {
            assert(c.previous@.take(i + 1) =~= c.previous@.take(i as int).push(
                c.previous@[i as int],
            ));
            lemma_enc_blobs_snoc(c.previous@.take(i as int), c.previous@[i as int]);
            assert(out@ =~= head + enc_blobs(c.previous@.take(i + 1)));
        }
        i = i + 1;
    }
    proof {
        assert(c.previous@.take(n as int) =~= c.previous@);
        assert(out@ =~= enc_commit(*c));
    }
    out
}

/// No well-formed commit serializes to bytes shorter than the fixed
/// header, with a message longer than the bytes allow, with a message that
/// is not UTF-8, or with a parent region that disagrees with the count
/// field.
proof fn lemma_no_commit_malformed(b: Seq<u8>)
    requires
        b.len() < 40 || dec_u32_at(b, 32) > b.len() - 40 || !vstd::utf8::valid_utf8(
            b.subrange(36, 36 + dec_u32_at(b, 32)),
        ) || b.len() - (40 + dec_u32_at(b, 32)) != 32 * dec_u32_at(b, 36 + dec_u32_at(b, 32)),
    ensures
        forall|c: Commit| commit_wf(c) ==> enc_commit(c) != b,
{
    assert forall|c: Commit| commit_wf(c) implies enc_commit(c) != b by {
        if enc_commit(c) == b {
            lemma_commit_enc_shape(c, b);
        }
    }
}

/// No well-formed commit serializes with parent digests out of order.
proof fn lemma_no_commit_unsorted(b: Seq<u8>, ml: int, pc: int, i: int)
    requires
        b.len() >= 40,
        dec_u32_at(b, 32) == ml,
        0 <= ml <= b.len() - 40,
        dec_u32_at(b, 36 + ml) == pc,
        b.len() - (40 + ml) == 32 * pc,
        1 <= i < pc,
        !bytes_lt(
            b.subrange(40 + ml + 32 * (i - 1), 40 + ml + 32 * (i - 1) + 32),
            b.subrange(40 + ml + 32 * i, 40 + ml + 32 * i + 32),
        ),
    ensures
        forall|c: Commit| commit_wf(c) ==> enc_commit(c) != b,
{
    assert forall|c: Commit| commit_wf(c) implies enc_commit(c) != b by {
        if enc_commit(c) == b {
            lemma_commit_enc_shape(c, b);
            assert(c.previous@.len() == pc);
            assert(c.previous@[i - 1]@ == b.subrange(
                40 + ml + 32 * (i - 1),
                40 + ml + 32 * (i - 1) + 32,
            ));
            assert(c.previous@[i]@ == b.subrange(40 + ml + 32 * i, 40 + ml + 32 * i + 32));
            assert(bytes_lt(c.previous@[i - 1]@, c.previous@[i]@));
        }
    }
}

/// A commit built from parsed pieces serializes back to the parsed bytes.
#[verifier::rlimit(60)]
proof fn lemma_commit_assemble(b: Seq<u8>, c: Commit)
    requires
        b.len() >= 40,
        blob_wf(c.directory),
        c.directory@ == b.subrange(0, 32),
        dec_u32_at(b, 32) == name_bytes(c.message@).len(),
        name_bytes(c.message@) == b.subrange(36, 36 + name_bytes(c.message@).len() as int),
        name_bytes(c.message@).len() <= b.len() - 40,
        dec_u32_at(b, 36 + name_bytes(c.message@).len() as int) == c.previous@.len(),
        b.len() - (40 + name_bytes(c.message@).len()) == 32 * c.previous@.len(),
        forall|i: int| 0 <= i < c.previous@.len() ==> blob_wf(#[trigger] c.previous@[i]),
        forall|i: int|
            0 <= i < c.previous@.len() ==> (#[trigger] c.previous@[i])@ == b.subrange(
                40 + name_bytes(c.message@).len() + 32 * i,
                40 + name_bytes(c.message@).len() + 32 * i + 32,
            ),
    ensures
        enc_commit(c) == b,
{
    let ml_i = name_bytes(c.message@).len() as int;
    let pc_i = c.previous@.len() as int;
    let n = b.len() as int;
    lemma_enc_blobs_len(c.previous@);
    lemma_enc_of_dec(b, 32);
    lemma_enc_of_dec(b, 36 + ml_i);
    let wc = c.directory@ + enc_u32(ml_i) + name_bytes(c.message@) + enc_u32(pc_i) + enc_blobs(
        c.previous@,
    );
    assert(wc =~= b) by {
        assert forall|k: int| 0 <= k < n implies #[trigger] b[k] == wc[k] by {
            if k < 32 {
                assert(wc[k] == c.directory@[k]);
                assert(b.subrange(0, 32)[k] == b[k]);
            } else if k < 36 {
                assert(wc[k] == enc_u32(ml_i)[k - 32]);
                assert(enc_u32(dec_u32_at(b, 32))[k - 32] == b.subrange(32, 36)[k - 32]);
                assert(b.subrange(32, 36)[k - 32] == b[k]);
            } else if k < 36 + ml_i {
                assert(wc[k] == name_bytes(c.message@)[k - 36]);
                assert(b.subrange(36, 36 + ml_i)[k - 36] == b[k]);
            } else if k < 40 + ml_i {
                assert(wc[k] == enc_u32(pc_i)[k - 36 - ml_i]);
                assert(enc_u32(dec_u32_at(b, 36 + ml_i))[k - 36 - ml_i] == b.subrange(
                    36 + ml_i,
                    40 + ml_i,
                )[k - 36 - ml_i]);
                assert(b.subrange(36 + ml_i, 40 + ml_i)[k - 36 - ml_i] == b[k]);
            } else {
                let idx = (k - 40 - ml_i) / 32;
                let jj = (k - 40 - ml_i) % 32;
                assert(0 <= idx < pc_i && 0 <= jj < 32 && k == 40 + ml_i + 32 * idx + jj)
                    by (nonlinear_arith)
                    requires
                        40 + ml_i <= k < n,
                        n - (40 + ml_i) == 32 * pc_i,
                        idx == (k - 40 - ml_i) / 32,
                        jj == (k - 40 - ml_i) % 32,
                ;
                assert(wc[k] == enc_blobs(c.previous@)[32 * idx + jj]);
                assert(enc_blobs(c.previous@)[32 * idx + jj] == c.previous@[idx]@[jj]);
                assert(c.previous@[idx]@ == b.subrange(
                    40 + ml_i + 32 * idx,
                    40 + ml_i + 32 * idx + 32,
                ));
                assert(b.subrange(40 + ml_i + 32 * idx, 40 + ml_i + 32 * idx + 32)[jj] == b[40
                    + ml_i + 32 * idx + jj]);
            }
        }
    }
}

/// Deserializes a commit: succeeds exactly on the canonical byte form of a
/// well-formed commit, and yields a commit that serializes back to the
/// input.
pub fn decode_commit(bytes: &[u8]) -> (r: Option<Commit>)
    ensures
        match r {
            Some(c) => commit_wf(c) && enc_commit(c) == bytes@,
            None => forall|c: Commit| commit_wf(c) ==> enc_commit(c) != bytes@,
        },
{
    let n = bytes.len();
    if n < 40 {
        proof {
            lemma_no_commit_malformed(bytes@);
        }
        return None;
    }
    let ml32 = read_u32(bytes, 32);
    let ml = ml32 as usize;
    if ml > n - 40 {
        proof {
            lemma_no_commit_malformed(bytes@);
        }
        return None;
    }
    let mv = copy_range(bytes, 36, ml);
    let message = match crate::codec::bytes_to_string(mv) {
        Option::None => {
            proof {
                lemma_no_commit_malformed(bytes@);
            }
            return None;
        },
        Option::Some(s) => s,
    };
    let pc32 = read_u32(bytes, 36 + ml);
    let pc = pc32 as usize;
    let rem = n - (40 + ml);
    if rem % 32 != 0 || pc != rem / 32 {
        proof {
            assert(bytes@.len() - (40 + ml) != 32 * dec_u32_at(bytes@, 36 + ml as int));
            lemma_no_commit_malformed(bytes@);
        }
        return None;
    }
    let dir = crate::blob::Blob(copy_range(bytes, 0, 32));
    let mut previous: Vec<Blob> = Vec::new();
    let mut i: usize = 0;
    while i < pc
        invariant
            bytes@.len() == n,
            n >= 40,
            ml <= n - 40,
            0 <= i <= pc,
            dec_u32_at(bytes@, 32) == ml,
            dec_u32_at(bytes@, 36 + ml as int) == pc,
            n - (40 + ml) == 32 * pc,
            previous@.len() == i,
            forall|k: int| 0 <= k < i ==> blob_wf(#[trigger] previous@[k]),
            forall|k: int|
                0 <= k < i ==> (#[trigger] previous@[k])@ == bytes@.subrange(
                    40 + ml + 32 * k,
                    40 + ml + 32 * k + 32,
                ),
            forall|a: int, b: int|
                0 <= a < b < i ==> bytes_lt((#[trigger] previous@[a])@, (
                #[trigger] previous@[b])@),
        decreases pc - i,
    {
        let off = 40 + ml + 32 * i;
        let dv = crate::blob::Blob(copy_range(bytes, off, 32));
        if i > 0 {
            let ok = bytes_less(previous[i - 1].0.as_slice(), dv.0.as_slice());
            if !ok {
                proof {
                    lemma_no_commit_unsorted(bytes@, ml as int, pc as int, i as int);
                }
                return None;
            }
        }
        previous.push(dv);
        proof {
            assert forall|a: int, b: int| 0 <= a < b < previous@.len() implies bytes_lt(
                (#[trigger] previous@[a])@,
                (#[trigger] previous@[b])@,
            ) by {
                if b < previous@.len() - 1 {
                } else if a < previous@.len() - 2 {
                    lemma_bytes_lt_transitive(
                        previous@[a]@,
                        previous@[previous@.len() - 2]@,
                        previous@[b]@,
                    );
                }
            }
        }
        i = i + 1;
    }
    let c = Commit { directory: dir, message, previous };
    proof {
        lemma_commit_assemble(bytes@, c);
    }
    Some(c)
}

} // verus!
