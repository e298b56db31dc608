//! Deterministic serialization of snapshot trees. Object identity is the
//! digest of an object's serialized bytes, so the format is canonical: a
//! directory is its entry count followed by its entries in their sorted
//! order, an entry is its name (length-prefixed UTF-8), a kind tag, and
//! either a fingerprint or a nested directory. Equal trees serialize to
//! equal bytes, and distinct well-formed trees to distinct bytes.
use vstd::prelude::*;

use crate::directory::{dir_wf, entries_sorted, entry_wf, name_bytes, name_ok, same_dir,
    same_entries, same_entry, Directory, DirectoryEntry, lemma_name_bytes_injective};
use crate::order::bytes_lt;

verus! {

/// Tag byte of a file entry.
pub const TAG_FILE: u8 = 0;

/// Tag byte of a directory entry.
pub const TAG_DIR: u8 = 1;

/// A 32-bit length field, big-endian.
pub open spec fn enc_u32(v: int) -> Seq<u8> {
    seq![
        ((v / 0x1000000) % 256) as u8,
        ((v / 0x10000) % 256) as u8,
        ((v / 0x100) % 256) as u8,
        (v % 256) as u8,
    ]
}

/// The value a 32-bit length field at `p` carries.
pub open spec fn dec_u32_at(b: Seq<u8>, p: int) -> int {
    (b[p] as int) * 0x1000000 + (b[p + 1] as int) * 0x10000 + (b[p + 2] as int) * 0x100 + (b[p
        + 3] as int)
}

proof fn lemma_u32_digits(v: u32)
    ensures
        ((v / 0x1000000) % 256) as int * 0x1000000 + ((v / 0x10000) % 256) as int * 0x10000 + ((
        v / 0x100) % 256) as int * 0x100 + (v % 256) as int == v as int,
        (v as int / 0x1000000) % 256 == (v / 0x1000000) % 256,
        (v as int / 0x10000) % 256 == (v / 0x10000) % 256,
        (v as int / 0x100) % 256 == (v / 0x100) % 256,
        v as int % 256 == (v % 256) as int,
{
    assert((v / 0x1000000) % 256 * 0x1000000 + (v / 0x10000) % 256 * 0x10000 + (v / 0x100) % 256
        * 0x100 + v % 256 == v) by (bit_vector);
}

/// Reading a length field back yields the value written.
pub proof fn lemma_u32_roundtrip(v: u32, b: Seq<u8>, p: int)
    requires
        0 <= p,
        p + 4 <= b.len(),
        b.subrange(p, p + 4) == enc_u32(v as int),
    ensures
        dec_u32_at(b, p) == v as int,
{
    lemma_u32_digits(v);
    assert(b[p] == enc_u32(v as int)[0]);
    assert(b[p + 1] == enc_u32(v as int)[1]);
    assert(b[p + 2] == enc_u32(v as int)[2]);
    assert(b[p + 3] == enc_u32(v as int)[3]);
}

/// The serialized form of one directory level: its entry count, then each
/// entry in order.
pub open spec fn enc_dir(d: Directory) -> Seq<u8>
    decreases d,
{
    enc_u32(d.root@.len() as int) + enc_entries(d.root@)
}

pub open spec fn enc_entries(s: Seq<(String, DirectoryEntry)>) -> Seq<u8>
    decreases s,
{
    if s.len() == 0 {
        Seq::empty()
    } else {
        enc_entry(s[0].0@, s[0].1) + enc_entries(s.drop_first())
    }
}

/// The serialized form of one entry: name length, name bytes, kind tag, and
/// the fingerprint or the nested directory.
pub open spec fn enc_entry(nm: Seq<char>, e: DirectoryEntry) -> Seq<u8>
    decreases e,
{
    enc_u32(name_bytes(nm).len() as int) + name_bytes(nm) + match e {
        DirectoryEntry::File(b) => seq![TAG_FILE] + b@,
        DirectoryEntry::Directory(d) => seq![TAG_DIR] + enc_dir(*d),
    }
}

/// Whether the bytes from `p` parse as one directory, and where the parse
/// ends. A parse demands what well-formedness demands: valid UTF-8 names,
/// strictly ascending within each level.
pub open spec fn dec_dir_ok(b: Seq<u8>, p: int) -> Option<int>
    decreases b.len() - p, 0int,
    when p >= 0
{
    if p + 4 > b.len() {
        None
    } else {
        dec_entries_ok(b, p + 4, dec_u32_at(b, p), None)
    }
}

/// Whether `c` further entries parse from `p`, each name strictly above
/// `prev`.
pub open spec fn dec_entries_ok(b: Seq<u8>, p: int, c: int, prev: Option<Seq<u8>>) -> Option<
    int,
>
    decreases b.len() - p, c + 1,
    when p >= 0
{
    if c < 0 {
        None
    } else if c == 0 {
        if p <= b.len() {
            Some(p)
        } else {
            None
        }
    } else {
        match dec_entry_ok(b, p, prev) {
            Option::None => None,
            Option::Some((nb, p2)) => if p < p2 <= b.len() {
                dec_entries_ok(b, p2, c - 1, Some(nb))
            } else {
                None
            },
        }
    }
}

/// Whether one entry parses at `p`: a name above `prev`, a kind tag, and a
/// fingerprint or a nested directory. Yields the name's bytes and the end.
pub open spec fn dec_entry_ok(b: Seq<u8>, p: int, prev: Option<Seq<u8>>) -> Option<(Seq<u8>, int)>
    decreases b.len() - p, 0int,
    when p >= 0
{
    if p + 4 > b.len() {
        None
    } else {
        let nlen = dec_u32_at(b, p);
        if p + 4 + nlen + 1 > b.len() {
            None
        } else {
            let nb = b.subrange(p + 4, p + 4 + nlen);
            if !vstd::utf8::valid_utf8(nb) {
                None
            } else if !(match prev {
                Option::None => true,
                Option::Some(pb) => bytes_lt(pb, nb),
            }) {
                None
            } else {
                let tag = b[p + 4 + nlen];
                if tag == TAG_FILE {
                    if p + 4 + nlen + 1 + 32 <= b.len() {
                        Some((nb, p + 4 + nlen + 1 + 32))
                    } else {
                        None
                    }
                } else if tag == TAG_DIR {
                    match dec_dir_ok(b, p + 4 + nlen + 1) {
                        Option::None => None,
                        Option::Some(p2) => Some((nb, p2)),
                    }
                } else {
                    None
                }
            }
        }
    }
}

/// Transfers a slice of a matched region: if `b` holds `w` at `p`, then the
/// piece of `b` at `p + off` is the piece of `w` at `off`.
pub proof fn lemma_seq_slice(b: Seq<u8>, p: int, w: Seq<u8>, off: int, len: int)
    requires
        0 <= p,
        p + w.len() <= b.len(),
        b.subrange(p, p + w.len() as int) == w,
        0 <= off,
        0 <= len,
        off + len <= w.len(),
    ensures
        b.subrange(p + off, p + off + len) =~= w.subrange(off, off + len),
{
    assert forall|i: int| 0 <= i < len implies #[trigger] b.subrange(p + off, p + off + len)[i]
        == w.subrange(off, off + len)[i] by {
        assert(b.subrange(p + off, p + off + len)[i] == b[p + off + i]);
        assert(b.subrange(p, p + w.len() as int)[off + i] == b[p + off + i]);
        assert(w.subrange(off, off + len)[i] == w[off + i]);
    }
}

/// Reads one byte of a matched region.
pub proof fn lemma_seq_byte(b: Seq<u8>, p: int, w: Seq<u8>, off: int)
    requires
        0 <= p,
        p + w.len() <= b.len(),
        b.subrange(p, p + w.len() as int) == w,
        0 <= off < w.len(),
    ensures
        b[p + off] == w[off],
{
    assert(b.subrange(p, p + w.len() as int)[off] == b[p + off]);
}

/// The encoding of a well-formed entry parses, ends where the encoding
/// ends, and yields the entry's name bytes.
pub proof fn lemma_dec_enc_entry(
    b: Seq<u8>,
    p: int,
    nm: Seq<char>,
    e: DirectoryEntry,
    prev: Option<Seq<u8>>,
)
    requires
        name_ok(nm),
        entry_wf(e),
        0 <= p,
        p + enc_entry(nm, e).len() <= b.len(),
        b.subrange(p, p + enc_entry(nm, e).len() as int) == enc_entry(nm, e),
        match prev {
            Option::None => true,
            Option::Some(pb) => bytes_lt(pb, name_bytes(nm)),
        },
    ensures
        dec_entry_ok(b, p, prev) == Some((name_bytes(nm), p + enc_entry(nm, e).len())),
    decreases e,
{
    broadcast use vstd::utf8::encode_utf8_valid_utf8;

    let ee = enc_entry(nm, e);
    let ll = ee.len() as int;
    let nb = name_bytes(nm);
    let nlen = nb.len() as int;
    let tail = match e {
        DirectoryEntry::File(fb) => seq![TAG_FILE] + fb@,
        DirectoryEntry::Directory(d) => seq![TAG_DIR] + enc_dir(*d),
    };
    let abc = enc_u32(nlen) + nb + tail;
    assert(ee =~= abc);
    assert(ll == 4 + nlen + tail.len());
    // the length field
    lemma_seq_slice(b, p, ee, 0, 4);
    assert(abc.subrange(0, 4) =~= enc_u32((nlen as u32) as int));
    assert(b.subrange(p, p + 4) == enc_u32((nlen as u32) as int));
    lemma_u32_roundtrip(nlen as u32, b, p);
    assert(dec_u32_at(b, p) == nlen);
    assert(p + 4 + nlen + 1 <= b.len());
    // the name bytes
    lemma_seq_slice(b, p, ee, 4, nlen);
    assert(abc.subrange(4, 4 + nlen) =~= nb);
    assert(b.subrange(p + 4, p + 4 + nlen) == nb);
    assert(vstd::utf8::valid_utf8(nb));
    // the tag byte
    lemma_seq_byte(b, p, ee, 4 + nlen);
    assert(abc[4 + nlen] == tail[0]);
    match e {
        DirectoryEntry::File(fb) => {
            assert(tail[0] == TAG_FILE);
            assert(b[p + 4 + nlen] == TAG_FILE);
            assert(tail.len() == 1 + 32);
            assert(dec_entry_ok(b, p, prev) == Some((nb, p + ll)));
        },
        DirectoryEntry::Directory(d) => {
            assert(tail[0] == TAG_DIR);
            assert(b[p + 4 + nlen] == TAG_DIR);
            assert(TAG_DIR != TAG_FILE);
            let q = p + 4 + nlen + 1;
            let dl = enc_dir(*d).len() as int;
            assert(tail.len() == 1 + dl);
            lemma_seq_slice(b, p, ee, 4 + nlen + 1, dl);
            assert(abc.subrange(4 + nlen + 1, 4 + nlen + 1 + dl) =~= enc_dir(*d)) by {
                assert forall|i: int| 0 <= i < dl implies abc.subrange(
                    4 + nlen + 1,
                    4 + nlen + 1 + dl,
                )[i] == enc_dir(*d)[i] by {
                    assert(abc.subrange(4 + nlen + 1, 4 + nlen + 1 + dl)[i] == abc[4 + nlen + 1
                        + i]);
                    assert(abc[4 + nlen + 1 + i] == tail[1 + i]);
                    assert(tail[1 + i] == enc_dir(*d)[i]);
                }
            }
            assert(b.subrange(q, q + dl) == enc_dir(*d));
            lemma_dec_enc_dir(b, q, *d);
            assert(dec_entry_ok(b, p, prev) == Some((nb, p + ll)));
        },
    }
}

/// The encodings of well-formed entries parse in sequence, names ascending.
pub proof fn lemma_dec_enc_entries(
    b: Seq<u8>,
    p: int,
    s: Seq<(String, DirectoryEntry)>,
    prev: Option<Seq<u8>>,
)
    requires
        entries_sorted(s),
        0 <= p,
        p + enc_entries(s).len() <= b.len(),
        b.subrange(p, p + enc_entries(s).len() as int) == enc_entries(s),
        match prev {
            Option::None => true,
            Option::Some(pb) => s.len() > 0 ==> bytes_lt(pb, name_bytes(s[0].0@)),
        },
    ensures
        dec_entries_ok(b, p, s.len() as int, prev) == Some(p + enc_entries(s).len()),
    decreases s,
{
    if s.len() == 0 {
        assert(dec_entries_ok(b, p, 0, prev) == Some(p));
    } else {
        let es = enc_entries(s);
        let e0 = enc_entry(s[0].0@, s[0].1);
        let rest = enc_entries(s.drop_first());
        assert(es =~= e0 + rest);
        let ll = es.len() as int;
        lemma_seq_slice(b, p, es, 0, e0.len() as int);
        assert((e0 + rest).subrange(0, e0.len() as int) =~= e0);
        assert(b.subrange(p, p + e0.len() as int) == e0);
        lemma_dec_enc_entry(b, p, s[0].0@, s[0].1, prev);
        let p2 = p + e0.len() as int;
        assert(e0.len() >= 5);
        crate::directory::lemma_entries_sorted_drop_first(s);
        lemma_seq_slice(b, p, es, e0.len() as int, rest.len() as int);
        assert((e0 + rest).subrange(e0.len() as int, ll) =~= rest);
        assert(b.subrange(p2, p2 + rest.len() as int) == rest);
        if s.drop_first().len() > 0 {
            assert(s.drop_first()[0] == s[1]);
            assert(bytes_lt(name_bytes(s[0].0@), name_bytes(s[1].0@)));
        }
        lemma_dec_enc_entries(b, p2, s.drop_first(), Some(name_bytes(s[0].0@)));
        assert(dec_entries_ok(b, p, s.len() as int, prev) == Some(p + ll));
    }
}

/// The encoding of a well-formed directory parses and ends where the
/// encoding ends.
pub proof fn lemma_dec_enc_dir(b: Seq<u8>, p: int, d: Directory)
    requires
        dir_wf(d),
        0 <= p,
        p + enc_dir(d).len() <= b.len(),
        b.subrange(p, p + enc_dir(d).len() as int) == enc_dir(d),
    ensures
        dec_dir_ok(b, p) == Some(p + enc_dir(d).len()),
    decreases d,
{
    let ed = enc_dir(d);
    let ll = ed.len() as int;
    let c = d.root@.len() as int;
    let rest = enc_entries(d.root@);
    assert(ed =~= enc_u32(c) + rest);
    lemma_seq_slice(b, p, ed, 0, 4);
    assert((enc_u32(c) + rest).subrange(0, 4) =~= enc_u32((c as u32) as int));
    assert(b.subrange(p, p + 4) == enc_u32((c as u32) as int));
    lemma_u32_roundtrip(c as u32, b, p);
    assert(dec_u32_at(b, p) == c);
    let q = p + 4;
    lemma_seq_slice(b, p, ed, 4, rest.len() as int);
    assert((enc_u32(c) + rest).subrange(4, ll) =~= rest);
    assert(b.subrange(q, q + rest.len() as int) == rest);
    lemma_dec_enc_entries(b, q, d.root@, None);
}

/// Two well-formed entry encodings that open the same byte stream are the
/// same encoding of structurally equal entries under the same name.
#[verifier::rlimit(100)]
pub proof fn lemma_enc_unambiguous_entry(
    nma: Seq<char>,
    ea: DirectoryEntry,
    nmb: Seq<char>,
    eb: DirectoryEntry,
    x: Seq<u8>,
    y: Seq<u8>,
)
    requires
        name_ok(nma),
        entry_wf(ea),
        name_ok(nmb),
        entry_wf(eb),
        enc_entry(nma, ea) + x == enc_entry(nmb, eb) + y,
    ensures
        nma == nmb,
        same_entry(ea, eb),
        x == y,
        enc_entry(nma, ea) == enc_entry(nmb, eb),
    decreases ea,
{
    let aa = enc_entry(nma, ea);
    let bb = enc_entry(nmb, eb);
    let ll = aa + x;
    assert(ll == bb + y);
    let nba = name_bytes(nma);
    let nbb = name_bytes(nmb);
    let la = nba.len() as int;
    let lb = nbb.len() as int;
    let taila = match ea {
        DirectoryEntry::File(fb) => seq![TAG_FILE] + fb@,
        DirectoryEntry::Directory(d) => seq![TAG_DIR] + enc_dir(*d),
    };
    let tailb = match eb {
        DirectoryEntry::File(fb) => seq![TAG_FILE] + fb@,
        DirectoryEntry::Directory(d) => seq![TAG_DIR] + enc_dir(*d),
    };
    assert(aa =~= enc_u32(la) + nba + taila);
    assert(bb =~= enc_u32(lb) + nbb + tailb);
    assert(ll.subrange(0, aa.len() as int) =~= aa);
    assert(ll.subrange(0, bb.len() as int) =~= bb);
    // both length fields read from the same four bytes
    lemma_seq_slice(ll, 0, aa, 0, 4);
    assert((enc_u32(la) + nba + taila).subrange(0, 4) =~= enc_u32((la as u32) as int));
    lemma_u32_roundtrip(la as u32, ll, 0);
    lemma_seq_slice(ll, 0, bb, 0, 4);
    assert((enc_u32(lb) + nbb + tailb).subrange(0, 4) =~= enc_u32((lb as u32) as int));
    lemma_u32_roundtrip(lb as u32, ll, 0);
    assert(la == lb);
    // hence the same name bytes
    lemma_seq_slice(ll, 0, aa, 4, la);
    assert((enc_u32(la) + nba + taila).subrange(4, 4 + la) =~= nba);
    lemma_seq_slice(ll, 0, bb, 4, lb);
    assert((enc_u32(lb) + nbb + tailb).subrange(4, 4 + lb) =~= nbb);
    assert(nba == nbb);
    lemma_name_bytes_injective(nma, nmb);
    // the same tag
    lemma_seq_byte(ll, 0, aa, 4 + la);
    assert((enc_u32(la) + nba + taila)[4 + la] == taila[0]);
    lemma_seq_byte(ll, 0, bb, 4 + lb);
    assert((enc_u32(lb) + nbb + tailb)[4 + lb] == tailb[0]);
    assert(taila[0] == tailb[0]);
    match (ea, eb) {
        (DirectoryEntry::File(fa), DirectoryEntry::File(fb)) => {
            assert(fa@.len() == 32 && fb@.len() == 32);
            lemma_seq_slice(ll, 0, aa, 4 + la + 1, 32);
            assert((enc_u32(la) + nba + taila).subrange(4 + la + 1, 4 + la + 1 + 32) =~= fa@) by {
                assert forall|i: int| 0 <= i < 32 implies #[trigger] (enc_u32(la) + nba
                    + taila).subrange(4 + la + 1, 4 + la + 1 + 32)[i] == fa@[i] by {
                    assert((enc_u32(la) + nba + taila).subrange(4 + la + 1, 4 + la + 1 + 32)[i]
                        == (enc_u32(la) + nba + taila)[4 + la + 1 + i]);
                    assert((enc_u32(la) + nba + taila)[4 + la + 1 + i] == taila[1 + i]);
                    assert(taila[1 + i] == fa@[i]);
                }
            }
            lemma_seq_slice(ll, 0, bb, 4 + lb + 1, 32);
            assert((enc_u32(lb) + nbb + tailb).subrange(4 + lb + 1, 4 + lb + 1 + 32) =~= fb@) by {
                assert forall|i: int| 0 <= i < 32 implies #[trigger] (enc_u32(lb) + nbb
                    + tailb).subrange(4 + lb + 1, 4 + lb + 1 + 32)[i] == fb@[i] by {
                    assert((enc_u32(lb) + nbb + tailb).subrange(4 + lb + 1, 4 + lb + 1 + 32)[i]
                        == (enc_u32(lb) + nbb + tailb)[4 + lb + 1 + i]);
                    assert((enc_u32(lb) + nbb + tailb)[4 + lb + 1 + i] == tailb[1 + i]);
                    assert(tailb[1 + i] == fb@[i]);
                }
            }
            assert(fa@ == fb@);
            assert(aa.len() == bb.len());
            assert(x =~= y) by {
                assert forall|i: int| 0 <= i < x.len() implies x[i] == y[i] by {
                    assert((aa + x)[aa.len() + i] == x[i]);
                    assert((bb + y)[bb.len() + i] == y[i]);
                }
            }
            assert(aa =~= bb);
        },
        (DirectoryEntry::Directory(da), DirectoryEntry::Directory(db)) => {
            let q = 4 + la + 1;
            let dla = enc_dir(*da).len() as int;
            let dlb = enc_dir(*db).len() as int;
            // the two nested encodings open the same remaining stream
            let rest = ll.subrange(q, ll.len() as int);
            assert(enc_dir(*da) + (x) =~= rest.subrange(0, dla + x.len())) by {
                assert(rest.subrange(0, dla + x.len()) =~= rest);
                assert forall|i: int| 0 <= i < dla + x.len() implies #[trigger] rest[i] == (
                enc_dir(*da) + x)[i] by {
                    assert(rest[i] == ll[q + i]);
                    if i < dla {
                        assert(ll[q + i] == aa[q + i]) by {
                            lemma_seq_byte(ll, 0, aa, q + i);
                        }
                        assert(aa[q + i] == (enc_u32(la) + nba + taila)[q + i]);
                        assert((enc_u32(la) + nba + taila)[q + i] == taila[1 + i]);
                        assert(taila[1 + i] == enc_dir(*da)[i]);
                    } else {
                        assert(ll[q + i] == (aa + x)[aa.len() + (i - dla)]);
                        assert((aa + x)[aa.len() + (i - dla)] == x[i - dla]);
                    }
                }
            }
            assert(enc_dir(*db) + (y) =~= rest.subrange(0, dlb + y.len())) by {
                assert(rest.subrange(0, dlb + y.len()) =~= rest);
                assert forall|i: int| 0 <= i < dlb + y.len() implies #[trigger] rest[i] == (
                enc_dir(*db) + y)[i] by {
                    assert(rest[i] == ll[q + i]);
                    if i < dlb {
                        assert(ll[q + i] == bb[q + i]) by {
                            lemma_seq_byte(ll, 0, bb, q + i);
                        }
                        assert(bb[q + i] == (enc_u32(lb) + nbb + tailb)[q + i]);
                        assert((enc_u32(lb) + nbb + tailb)[q + i] == tailb[1 + i]);
                        assert(tailb[1 + i] == enc_dir(*db)[i]);
                    } else {
                        assert(ll[q + i] == (bb + y)[bb.len() + (i - dlb)]);
                        assert((bb + y)[bb.len() + (i - dlb)] == y[i - dlb]);
                    }
                }
            }
            assert(enc_dir(*da) + x == enc_dir(*db) + y);
            lemma_enc_unambiguous_dir(*da, *db, x, y);
            assert(aa =~= bb);
        },
        (DirectoryEntry::File(_), DirectoryEntry::Directory(_)) => {
            assert(taila[0] == TAG_FILE && tailb[0] == TAG_DIR);
            assert(false);
        },
        (DirectoryEntry::Directory(_), DirectoryEntry::File(_)) => {
            assert(taila[0] == TAG_DIR && tailb[0] == TAG_FILE);
            assert(false);
        },
    }
}

/// Two well-formed entry-sequence encodings of the same count that open the
/// same byte stream encode structurally equal sequences.
pub proof fn lemma_enc_unambiguous_entries(
    sa: Seq<(String, DirectoryEntry)>,
    sb: Seq<(String, DirectoryEntry)>,
    x: Seq<u8>,
    y: Seq<u8>,
)
    requires
        entries_sorted(sa),
        entries_sorted(sb),
        sa.len() == sb.len(),
        enc_entries(sa) + x == enc_entries(sb) + y,
    ensures
        same_entries(sa, sb),
        x == y,
        enc_entries(sa) == enc_entries(sb),
    decreases sa,
{
    if sa.len() == 0 {
        assert(enc_entries(sa) =~= Seq::<u8>::empty());
        assert(enc_entries(sb) =~= Seq::<u8>::empty());
        assert(x =~= enc_entries(sa) + x);
        assert(y =~= enc_entries(sb) + y);
    } else {
        let e0a = enc_entry(sa[0].0@, sa[0].1);
        let e0b = enc_entry(sb[0].0@, sb[0].1);
        let ra = enc_entries(sa.drop_first());
        let rb = enc_entries(sb.drop_first());
        assert(enc_entries(sa) =~= e0a + ra);
        assert(enc_entries(sb) =~= e0b + rb);
        assert(e0a + (ra + x) =~= enc_entries(sa) + x);
        assert(e0b + (rb + y) =~= enc_entries(sb) + y);
        lemma_enc_unambiguous_entry(sa[0].0@, sa[0].1, sb[0].0@, sb[0].1, ra + x, rb + y);
        crate::directory::lemma_entries_sorted_drop_first(sa);
        crate::directory::lemma_entries_sorted_drop_first(sb);
        lemma_enc_unambiguous_entries(sa.drop_first(), sb.drop_first(), x, y);
        assert forall|i: int| 0 <= i < sa.len() implies (#[trigger] sa[i]).0@ == sb[i].0@
            && same_entry(sa[i].1, sb[i].1) by {
            if i > 0 {
                assert(sa.drop_first()[i - 1] == sa[i]);
                assert(sb.drop_first()[i - 1] == sb[i]);
            }
        }
    }
}

/// Serialization is unambiguous: two well-formed directory encodings that
/// open the same byte stream are the same encoding of structurally equal
/// trees. In particular (empty remainders) the encoding is injective up to
/// structural equality.
pub proof fn lemma_enc_unambiguous_dir(a: Directory, b: Directory, x: Seq<u8>, y: Seq<u8>)
    requires
        dir_wf(a),
        dir_wf(b),
        enc_dir(a) + x == enc_dir(b) + y,
    ensures
        same_dir(a, b),
        x == y,
        enc_dir(a) == enc_dir(b),
    decreases a,
{
    let ea = enc_dir(a);
    let eb = enc_dir(b);
    let ll = ea + x;
    assert(ll == eb + y);
    let ca = a.root@.len() as int;
    let cb = b.root@.len() as int;
    assert(ea =~= enc_u32(ca) + enc_entries(a.root@));
    assert(eb =~= enc_u32(cb) + enc_entries(b.root@));
    assert(ll.subrange(0, ea.len() as int) =~= ea);
    assert(ll.subrange(0, eb.len() as int) =~= eb);
    lemma_seq_slice(ll, 0, ea, 0, 4);
    assert((enc_u32(ca) + enc_entries(a.root@)).subrange(0, 4) =~= enc_u32((ca as u32) as int));
    lemma_u32_roundtrip(ca as u32, ll, 0);
    lemma_seq_slice(ll, 0, eb, 0, 4);
    assert((enc_u32(cb) + enc_entries(b.root@)).subrange(0, 4) =~= enc_u32((cb as u32) as int));
    lemma_u32_roundtrip(cb as u32, ll, 0);
    assert(ca == cb);
    assert(enc_entries(a.root@) + x =~= ll.subrange(4, ll.len() as int)) by {
        assert forall|i: int| 0 <= i < ll.len() - 4 implies #[trigger] ll.subrange(
            4,
            ll.len() as int,
        )[i] == (enc_entries(a.root@) + x)[i] by {
            assert(ll.subrange(4, ll.len() as int)[i] == ll[4 + i]);
            if i < enc_entries(a.root@).len() {
                lemma_seq_byte(ll, 0, ea, 4 + i);
                assert(ea[4 + i] == (enc_u32(ca) + enc_entries(a.root@))[4 + i]);
            } else {
                assert(ll[4 + i] == (ea + x)[ea.len() + (i - enc_entries(a.root@).len())]);
            }
        }
    }
    assert(enc_entries(b.root@) + y =~= ll.subrange(4, ll.len() as int)) by {
        assert forall|i: int| 0 <= i < ll.len() - 4 implies #[trigger] ll.subrange(
            4,
            ll.len() as int,
        )[i] == (enc_entries(b.root@) + y)[i] by {
            assert(ll.subrange(4, ll.len() as int)[i] == ll[4 + i]);
            if i < enc_entries(b.root@).len() {
                lemma_seq_byte(ll, 0, eb, 4 + i);
                assert(eb[4 + i] == (enc_u32(cb) + enc_entries(b.root@))[4 + i]);
            } else {
                assert(ll[4 + i] == (eb + y)[eb.len() + (i - enc_entries(b.root@).len())]);
            }
        }
    }
    assert(enc_entries(a.root@) + x == enc_entries(b.root@) + y);
    lemma_enc_unambiguous_entries(a.root@, b.root@, x, y);
    assert(ea =~= eb);
}

/// Appends the four bytes of a length field.
pub(crate) fn push_u32(out: &mut Vec<u8>, v: u32)
    ensures
        final(out)@ == old(out)@ + enc_u32(v as int),
{
    let ghost out0 = out@;
    out.push((v / 0x1000000 % 256) as u8);
    out.push((v / 0x10000 % 256) as u8);
    out.push((v / 0x100 % 256) as u8);
    out.push((v % 256) as u8);
    proof {
        lemma_u32_digits(v);
        assert(out@ =~= out0 + enc_u32(v as int));
    }
}

/// Appends a byte slice.
pub(crate) fn push_bytes(out: &mut Vec<u8>, s: &[u8])
    ensures
        final(out)@ == old(out)@ + s@,
{
    let ghost out0 = out@;
    let n = s.len();
    let mut i: usize = 0;
    while i < n
        invariant
            0 <= i <= n,
            s@.len() == n,
            out@ =~= out0 + s@.take(i as int),
        decreases n - i,
    {
        out.push(s[i]);
        proof {
            assert(out@ =~= out0 + s@.take(i + 1));
        }
        i = i + 1;
    }
    proof {
        assert(s@.take(n as int) =~= s@);
    }
}

/// Appending one entry appends its encoding.
proof fn lemma_enc_entries_snoc(s: Seq<(String, DirectoryEntry)>, x: (String, DirectoryEntry))
    ensures
        enc_entries(s.push(x)) == enc_entries(s) + enc_entry(x.0@, x.1),
    decreases s,
{
    if s.len() == 0 {
        assert(s.push(x)[0] == x);
        assert(s.push(x).drop_first() =~= Seq::<(String, DirectoryEntry)>::empty());
        assert(enc_entries(Seq::<(String, DirectoryEntry)>::empty()) =~= Seq::<u8>::empty());
        assert(enc_entries(s.push(x)) =~= enc_entry(x.0@, x.1) + Seq::<u8>::empty());
        assert(enc_entries(s) + enc_entry(x.0@, x.1) =~= enc_entry(x.0@, x.1));
        assert(enc_entries(s.push(x)) =~= enc_entries(s) + enc_entry(x.0@, x.1));
    } else {
        assert(s.push(x)[0] == s[0]);
        assert(s.push(x).drop_first() =~= s.drop_first().push(x));
        lemma_enc_entries_snoc(s.drop_first(), x);
        assert(enc_entries(s.push(x)) =~= enc_entries(s) + enc_entry(x.0@, x.1));
    }
}

/// Appends the serialized form of one directory.
fn encode_dir_into(out: &mut Vec<u8>, d: &Directory)
    requires
        dir_wf(*d),
    ensures
        final(out)@ == old(out)@ + enc_dir(*d),
    decreases *d,
{
    let ghost out0 = out@;
    let n = d.root.len();
    push_u32(out, n as u32);
    proof {
        assert(enc_entries(d.root@.take(0)) =~= Seq::<u8>::empty());
        assert(out@ =~= out0 + enc_u32(n as int) + enc_entries(d.root@.take(0)));
    }
    let mut i: usize = 0;
    while i < n
        invariant
            dir_wf(*d),
            d.root@.len() == n,
            0 <= i <= n,
            out@ == out0 + enc_u32(n as int) + enc_entries(d.root@.take(i as int)),
        decreases n - i,
    {
        let (nm, e) = &d.root[i];
        proof {
            assert(name_ok(d.root@[i as int].0@));
            assert(entry_wf(d.root@[i as int].1));
        }
        encode_entry_into(out, nm, e);
        proof {
            assert(d.root@.take(i + 1) =~= d.root@.take(i as int).push(d.root@[i as int]));
            lemma_enc_entries_snoc(d.root@.take(i as int), d.root@[i as int]);
            assert(out@ =~= out0 + enc_u32(n as int) + enc_entries(d.root@.take(i + 1)));
        }
        i = i + 1;
    }
    proof {
        assert(d.root@.take(n as int) =~= d.root@);
        assert(out@ =~= out0 + enc_dir(*d));
    }
}

/// Appends the serialized form of one entry.
fn encode_entry_into(out: &mut Vec<u8>, nm: &String, e: &DirectoryEntry)
    requires
        name_ok(nm@),
        entry_wf(*e),
    ensures
        final(out)@ == old(out)@ + enc_entry(nm@, *e),
    decreases *e,
{
    let ghost out0 = out@;
    let nb = nm.as_str().as_bytes();
    proof {
        assert(nb@ == name_bytes(nm@));
    }
    push_u32(out, nb.len() as u32);
    push_bytes(out, nb);
    match e {
        DirectoryEntry::File(b) => {
            out.push(TAG_FILE);
            push_bytes(out, b.0.as_slice());
            proof {
                assert(out@ =~= out0 + enc_entry(nm@, *e));
            }
        },
        DirectoryEntry::Directory(d) => {
            out.push(TAG_DIR);
            encode_dir_into(out, &**d);
            proof {
                assert(out@ =~= out0 + enc_entry(nm@, *e));
            }
        },
    }
}

/// Serializes a snapshot tree into its canonical byte form.
pub fn encode_directory(d: &Directory) -> (r: Vec<u8>)
    requires
        dir_wf(*d),
    ensures
        r@ == enc_dir(*d),
{
    let mut out: Vec<u8> = Vec::new();
    encode_dir_into(&mut out, d);
    proof {
        assert(out@ =~= enc_dir(*d));
    }
    out
}

/// Relies on String::from_utf8: succeeds exactly on valid UTF-8, and the
/// string's bytes are the input bytes.
#[verifier::external_body]
pub(crate) fn bytes_to_string(v: Vec<u8>) -> (r: Option<String>)
    ensures
        match r {
            Some(s) => vstd::utf8::valid_utf8(v@) && name_bytes(s@) == v@,
            None => !vstd::utf8::valid_utf8(v@),
        },
{
    String::from_utf8(v).ok()
}

/// Reads a length field.
pub(crate) fn read_u32(bytes: &[u8], p: usize) -> (r: u32)
    requires
        p + 4 <= bytes@.len(),
    ensures
        r as int == dec_u32_at(bytes@, p as int),
{
    (bytes[p] as u32) * 0x1000000 + (bytes[p + 1] as u32) * 0x10000 + (bytes[p + 2] as u32)
        * 0x100 + (bytes[p + 3] as u32)
}

/// A length field re-encodes to the bytes it was read from.
pub(crate) proof fn lemma_enc_of_dec(b: Seq<u8>, p: int)
    requires
        0 <= p,
        p + 4 <= b.len(),
    ensures
        enc_u32(dec_u32_at(b, p)) =~= b.subrange(p, p + 4),
{
    let b0 = b[p];
    let b1 = b[p + 1];
    let b2 = b[p + 2];
    let b3 = b[p + 3];
    assert(((b0 as u32) * 0x1000000 + (b1 as u32) * 0x10000 + (b2 as u32) * 0x100 + (
    b3 as u32)) / 0x1000000 % 256 == b0 as u32 && ((b0 as u32) * 0x1000000 + (b1 as u32)
        * 0x10000 + (b2 as u32) * 0x100 + (b3 as u32)) / 0x10000 % 256 == b1 as u32 && ((
    b0 as u32) * 0x1000000 + (b1 as u32) * 0x10000 + (b2 as u32) * 0x100 + (b3 as u32)) / 0x100
        % 256 == b2 as u32 && ((b0 as u32) * 0x1000000 + (b1 as u32) * 0x10000 + (b2 as u32)
        * 0x100 + (b3 as u32)) % 256 == b3 as u32) by (bit_vector);
}

/// Copies a range of bytes.
pub(crate) fn copy_range(bytes: &[u8], p: usize, len: usize) -> (r: Vec<u8>)
    requires
        p + len <= bytes@.len(),
    ensures
        r@ == bytes@.subrange(p as int, p + len),
{
    let mut out: Vec<u8> = Vec::new();
    let n = bytes.len();
    let mut i: usize = 0;
    while i < len
        invariant
            0 <= i <= len,
            bytes@.len() == n,
            p + len <= n,
            out@ =~= bytes@.subrange(p as int, p + i),
        decreases len - i,
    {
        out.push(bytes[p + i]);
        proof {
            assert(out@ =~= bytes@.subrange(p as int, p + i + 1));
        }
        i = i + 1;
    }
    out
}

/// The spec-level previous-name key of an optional previous name.
pub open spec fn prev_view(prev: Option<&String>) -> Option<Seq<u8>> {
    match prev {
        Option::None => Option::None,
        Option::Some(s) => Option::Some(name_bytes(s@)),
    }
}

/// The previous-name key after the entries parsed so far.
pub open spec fn acc_prev(acc: Seq<(String, DirectoryEntry)>) -> Option<Seq<u8>> {
    if acc.len() == 0 {
        Option::None
    } else {
        Option::Some(name_bytes(acc.last().0@))
    }
}

/// Parses one entry at `p`, mirroring `dec_entry_ok` byte for byte.
#[verifier::rlimit(100)]
fn dec_entry_at<'a>(bytes: &[u8], p: usize, prev: Option<&'a String>) -> (r: Option<
    (String, DirectoryEntry, usize),
>)
    ensures
        match r {
            Some(t) => {
                &&& name_ok(t.0@)
                &&& entry_wf(t.1)
                &&& p < t.2 <= bytes@.len()
                &&& enc_entry(t.0@, t.1) == bytes@.subrange(p as int, t.2 as int)
                &&& dec_entry_ok(bytes@, p as int, prev_view(prev)) == Some(
                    (name_bytes(t.0@), t.2 as int),
                )
            },
            None => dec_entry_ok(bytes@, p as int, prev_view(prev)) is None,
        },
    decreases bytes@.len() - p,
{
    let n = bytes.len();
    if n < 4 || p > n - 4 {
        return None;
    }
    let nlen32 = read_u32(bytes, p);
    let nlen = nlen32 as usize;
    let rem = n - (p + 4);
    if rem < 1 || nlen > rem - 1 {
        proof {
            assert(p + 4 + dec_u32_at(bytes@, p as int) + 1 > bytes@.len());
        }
        return None;
    }
    let nb = copy_range(bytes, p + 4, nlen);
    let ghost nbv = bytes@.subrange(p + 4, p + 4 + nlen as int);
    let nm = match bytes_to_string(nb) {
        Option::None => {
            return None;
        },
        Option::Some(nm) => nm,
    };
    match prev {
        Option::Some(ps) => {
            if !crate::order::bytes_less(ps.as_str().as_bytes(), nm.as_str().as_bytes()) {
                return None;
            }
        },
        Option::None => {},
    }
    let q = p + 4 + nlen;
    let tag = bytes[q];
    if tag == TAG_FILE {
        let rem2 = n - (q + 1);
        if rem2 < 32 {
            return None;
        }
        let dv = copy_range(bytes, q + 1, 32);
        let ghost dvv = dv@;
        let end = q + 1 + 32;
        let e = DirectoryEntry::File(crate::blob::Blob(dv));
        proof {
            lemma_enc_of_dec(bytes@, p as int);
            let whole = enc_u32(nlen as int) + name_bytes(nm@) + (seq![TAG_FILE] + dvv);
            assert(bytes@.subrange(p as int, end as int) =~= whole) by {
                assert forall|i: int| 0 <= i < end - p implies #[trigger] bytes@.subrange(
                    p as int,
                    end as int,
                )[i] == whole[i] by {
                    assert(bytes@.subrange(p as int, end as int)[i] == bytes@[p + i]);
                    if i < 4 {
                        assert(whole[i] == enc_u32(nlen as int)[i]);
                        assert(enc_u32(dec_u32_at(bytes@, p as int))[i] == bytes@.subrange(
                            p as int,
                            p + 4,
                        )[i]);
                        assert(bytes@.subrange(p as int, p + 4)[i] == bytes@[p + i]);
                    } else if i < 4 + nlen {
                        assert(whole[i] == name_bytes(nm@)[i - 4]);
                        assert(nbv[i - 4] == bytes@[p + 4 + (i - 4)]);
                    } else if i == 4 + nlen {
                        assert(whole[i] == (seq![TAG_FILE] + dvv)[0]);
                    } else {
                        assert(whole[i] == (seq![TAG_FILE] + dvv)[i - 4 - nlen]);
                        assert((seq![TAG_FILE] + dvv)[i - 4 - nlen] == dvv[i - 4 - nlen - 1]);
                        assert(dvv[i - 4 - nlen - 1] == bytes@.subrange(q + 1, q + 1 + 32)[i - 4
                            - nlen - 1]);
                        assert(bytes@.subrange(q + 1, q + 1 + 32)[i - 4 - nlen - 1] == bytes@[q
                            + 1 + (i - 4 - nlen - 1)]);
                    }
                }
            }
            assert(enc_entry(nm@, e) =~= whole);
            assert(dec_entry_ok(bytes@, p as int, prev_view(prev)) == Some(
                (name_bytes(nm@), end as int),
            ));
        }
        Some((nm, e, end))
    } else if tag == TAG_DIR {
        match dec_dir_at(bytes, q + 1) {
            Option::None => {
                return None;
            },
            Option::Some((d, end)) => {
                let ghost dd = d;
                let e = DirectoryEntry::Directory(Box::new(d));
                proof {
                    lemma_enc_of_dec(bytes@, p as int);
                    let whole = enc_u32(nlen as int) + name_bytes(nm@) + (seq![TAG_DIR]
                        + enc_dir(dd));
                    assert(bytes@.subrange(p as int, end as int) =~= whole) by {
                        assert forall|i: int| 0 <= i < end - p implies #[trigger] bytes@.subrange(
                            p as int,
                            end as int,
                        )[i] == whole[i] by {
                            assert(bytes@.subrange(p as int, end as int)[i] == bytes@[p + i]);
                            if i < 4 {
                                assert(whole[i] == enc_u32(nlen as int)[i]);
                                assert(enc_u32(dec_u32_at(bytes@, p as int))[i]
                                    == bytes@.subrange(p as int, p + 4)[i]);
                                assert(bytes@.subrange(p as int, p + 4)[i] == bytes@[p + i]);
                            } else if i < 4 + nlen {
                                assert(whole[i] == name_bytes(nm@)[i - 4]);
                                assert(nbv[i - 4] == bytes@[p + 4 + (i - 4)]);
                            } else if i == 4 + nlen {
                                assert(whole[i] == (seq![TAG_DIR] + enc_dir(dd))[0]);
                            } else {
                                assert(whole[i] == (seq![TAG_DIR] + enc_dir(dd))[i - 4 - nlen]);
                                assert((seq![TAG_DIR] + enc_dir(dd))[i - 4 - nlen] == enc_dir(
                                    dd,
                                )[i - 4 - nlen - 1]);
                                assert(enc_dir(dd)[i - 4 - nlen - 1] == bytes@.subrange(
                                    q + 1,
                                    end as int,
                                )[i - 4 - nlen - 1]);
                                assert(bytes@.subrange(q + 1, end as int)[i - 4 - nlen - 1]
                                    == bytes@[q + 1 + (i - 4 - nlen - 1)]);
                            }
                        }
                    }
                    assert(enc_entry(nm@, e) =~= whole);
                    assert(dec_entry_ok(bytes@, p as int, prev_view(prev)) == Some(
                        (name_bytes(nm@), end as int),
                    ));
                }
                Some((nm, e, end))
            },
        }
    } else {
        proof {
            assert(bytes@[q as int] != TAG_FILE && bytes@[q as int] != TAG_DIR);
        }
        None
    }
}

/// Parses one directory at `p`, mirroring `dec_dir_ok` byte for byte.
fn dec_dir_at(bytes: &[u8], p: usize) -> (r: Option<(Directory, usize)>)
    ensures
        match r {
            Some(t) => {
                &&& dir_wf(t.0)
                &&& p <= t.1 <= bytes@.len()
                &&& enc_dir(t.0) == bytes@.subrange(p as int, t.1 as int)
                &&& dec_dir_ok(bytes@, p as int) == Some(t.1 as int)
            },
            None => dec_dir_ok(bytes@, p as int) is None,
        },
    decreases bytes@.len() - p,
{
    let n = bytes.len();
    if n < 4 || p > n - 4 {
        return None;
    }
    let c32 = read_u32(bytes, p);
    let c = c32 as usize;
    proof {
        assert(dec_u32_at(bytes@, p as int) < 0x1_0000_0000);
    }
    let mut acc: Vec<(String, DirectoryEntry)> = Vec::new();
    let mut pos: usize = p + 4;
    let mut i: usize = 0;
    proof {
        assert(enc_entries(acc@) =~= Seq::<u8>::empty());
        assert(bytes@.subrange(p + 4, p + 4) =~= Seq::<u8>::empty());
    }
    while i < c
        invariant
            bytes@.len() == n,
            p + 4 <= pos <= n,
            0 <= i <= c,
            c as int == dec_u32_at(bytes@, p as int),
            n >= 4 && p <= n - 4,
            entries_sorted(acc@),
            acc@.len() == i,
            enc_entries(acc@) == bytes@.subrange(p + 4, pos as int),
            dec_entries_ok(bytes@, p + 4, c as int, None) == dec_entries_ok(
                bytes@,
                pos as int,
                c - i,
                acc_prev(acc@),
            ),
        decreases c - i,
    {
        let prev_ref: Option<&String> = if acc.len() == 0 {
            None
        } else {
            Some(&acc[acc.len() - 1].0)
        };
        proof {
            assert(prev_view(prev_ref) == acc_prev(acc@));
        }
        match dec_entry_at(bytes, pos, prev_ref) {
            Option::None => {
                return None;
            },
            Option::Some((nm, e, end)) => {
                let ghost acc0 = acc@;
                let ghost pos0 = pos as int;
                proof {
                    // the parse only succeeds with this name above the last
                    assert(match acc_prev(acc0) {
                        Option::None => true,
                        Option::Some(pb) => bytes_lt(pb, name_bytes(nm@)),
                    });
                    // the extended sequence stays sorted
                    assert forall|a: int, b: int| 0 <= a < b < acc0.push((nm, e)).len()
                        implies bytes_lt(
                        name_bytes((#[trigger] acc0.push((nm, e))[a]).0@),
                        name_bytes((#[trigger] acc0.push((nm, e))[b]).0@),
                    ) by {
                        if b < acc0.len() {
                            assert(acc0.push((nm, e))[a] == acc0[a]);
                            assert(acc0.push((nm, e))[b] == acc0[b]);
                        } else {
                            assert(acc0.push((nm, e))[b] == (nm, e));
                            assert(acc0.push((nm, e))[a] == acc0[a]);
                            if a < acc0.len() - 1 {
                                assert(bytes_lt(
                                    name_bytes(acc0[a].0@),
                                    name_bytes(acc0.last().0@),
                                ));
                                crate::order::lemma_bytes_lt_transitive(
                                    name_bytes(acc0[a].0@),
                                    name_bytes(acc0.last().0@),
                                    name_bytes(nm@),
                                );
                            }
                        }
                    }
                }
                acc.push((nm, e));
                pos = end;
                i = i + 1;
                proof {
                    assert(acc@ =~= acc0.push((nm, e)));
                    assert forall|k: int| 0 <= k < acc@.len() implies name_ok(
                        (#[trigger] acc@[k]).0@,
                    ) && entry_wf(acc@[k].1) by {
                        if k < acc0.len() {
                            assert(acc@[k] == acc0[k]);
                        } else {
                            assert(acc@[k] == (nm, e));
                        }
                    }
                    lemma_enc_entries_snoc(acc0, (nm, e));
                    assert(bytes@.subrange(p + 4, pos as int) =~= bytes@.subrange(p + 4, pos0)
                        + bytes@.subrange(pos0, pos as int)) by {
                        assert forall|k: int| 0 <= k < pos - (p + 4) implies #[trigger] bytes@.subrange(
                            p + 4,
                            pos as int,
                        )[k] == (bytes@.subrange(p + 4, pos0) + bytes@.subrange(
                            pos0,
                            pos as int,
                        ))[k] by {
                            assert(bytes@.subrange(p + 4, pos as int)[k] == bytes@[p + 4 + k]);
                            if k < pos0 - (p + 4) {
                                assert(bytes@.subrange(p + 4, pos0)[k] == bytes@[p + 4 + k]);
                            } else {
                                assert(bytes@.subrange(pos0, pos as int)[k - (pos0 - (p + 4))]
                                    == bytes@[pos0 + (k - (pos0 - (p + 4)))]);
                            }
                        }
                    }
                    assert(enc_entries(acc@) == bytes@.subrange(p + 4, pos as int));
                    assert(acc_prev(acc@) == Some(name_bytes(nm@)));
                    assert(dec_entries_ok(bytes@, pos0, c - i + 1, acc_prev(acc0))
                        == dec_entries_ok(bytes@, pos as int, c - i, acc_prev(acc@)));
                }
            },
        }
    }
    proof {
        assert(dec_entries_ok(bytes@, pos as int, 0, acc_prev(acc@)) == Some(pos as int));
        assert(dec_dir_ok(bytes@, p as int) == Some(pos as int));
    }
    let d = Directory { root: acc };
    proof {
        lemma_enc_of_dec(bytes@, p as int);
        assert(enc_dir(d) =~= bytes@.subrange(p as int, pos as int)) by {
            assert(enc_dir(d) == enc_u32(c as int) + enc_entries(d.root@));
            assert forall|k: int| 0 <= k < pos - p implies #[trigger] bytes@.subrange(
                p as int,
                pos as int,
            )[k] == (enc_u32(c as int) + enc_entries(d.root@))[k] by {
                assert(bytes@.subrange(p as int, pos as int)[k] == bytes@[p + k]);
                if k < 4 {
                    assert((enc_u32(c as int) + enc_entries(d.root@))[k] == enc_u32(
                        c as int,
                    )[k]);
                    assert(enc_u32(dec_u32_at(bytes@, p as int))[k] == bytes@.subrange(
                        p as int,
                        p + 4,
                    )[k]);
                    assert(bytes@.subrange(p as int, p + 4)[k] == bytes@[p + k]);
                } else {
                    assert((enc_u32(c as int) + enc_entries(d.root@))[k] == enc_entries(
                        d.root@,
                    )[k - 4]);
                    assert(bytes@.subrange(p + 4, pos as int)[k - 4] == bytes@[p + 4 + (k
                        - 4)]);
                }
            }
        }
    }
    Some((d, pos))
}

/// Deserializes a snapshot tree: succeeds exactly on the canonical byte
/// form of a well-formed tree, and yields a tree that serializes back to
/// the input.
pub fn decode_directory(bytes: &[u8]) -> (r: Option<Directory>)
    ensures
        match r {
            Some(d) => dir_wf(d) && bytes@ == enc_dir(d) && dec_dir_ok(bytes@, 0) == Some(
                bytes@.len() as int,
            ),
            None => dec_dir_ok(bytes@, 0) != Some(bytes@.len() as int),
        },
{
    match dec_dir_at(bytes, 0) {
        Option::None => None,
        Option::Some((d, end)) => {
            if end == bytes.len() {
                proof {
                    assert(bytes@.subrange(0, end as int) =~= bytes@);
                }
                Some(d)
            } else {
                None
            }
        },
    }
}

/// Tree round-trip: a well-formed tree read back from its canonical bytes
/// is structurally equal to the tree that produced them.
pub proof fn lemma_tree_round_trip(a: Directory, b: Directory)
    requires
        dir_wf(a),
        dir_wf(b),
        enc_dir(a) == enc_dir(b),
    ensures
        same_dir(a, b),
{
    assert(enc_dir(a) + Seq::<u8>::empty() =~= enc_dir(a));
    assert(enc_dir(b) + Seq::<u8>::empty() =~= enc_dir(b));
    lemma_enc_unambiguous_dir(a, b, Seq::empty(), Seq::empty());
}

} // verus!
