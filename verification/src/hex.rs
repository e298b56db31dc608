//! Hexadecimal rendering of binary identifiers: the textual form under
//! which fingerprints appear on disk, and the two-level shard split the
//! object store lays files out by.
use vstd::prelude::*;

use crate::blob::{blob_wf, Blob};

verus! {

/// The ASCII digit of one value below sixteen.
pub open spec fn hex_digit(v: int) -> u8 {
    if v <= 9 {
        (v + 48) as u8
    } else {
        (v + 87) as u8
    }
}

/// The hexadecimal rendering of a byte sequence: two lowercase digits per
/// byte, high half first.
pub open spec fn hex_of(b: Seq<u8>) -> Seq<u8> {
    Seq::new(
        2 * b.len(),
        |i: int|
            if i % 2 == 0 {
                hex_digit(b[i / 2] as int / 16)
            } else {
                hex_digit(b[i / 2] as int % 16)
            },
    )
}

/// The value of one ASCII hex digit, if it is one.
pub open spec fn hex_val(d: u8) -> Option<int> {
    if 48 <= d <= 57 {
        Some(d - 48)
    } else if 97 <= d <= 102 {
        Some(d - 87)
    } else {
        None
    }
}

/// A valid hexadecimal rendering: even length, lowercase digits only.
pub open spec fn hex_valid(s: Seq<u8>) -> bool {
    s.len() % 2 == 0 && (forall|i: int| 0 <= i < s.len() ==> hex_val(#[trigger] s[i]) is Some)
}

/// A rendering is valid hexadecimal.
pub proof fn lemma_hex_of_valid(b: Seq<u8>)
    ensures
        hex_valid(hex_of(b)),
{
    assert forall|i: int| 0 <= i < hex_of(b).len() implies hex_val(#[trigger] hex_of(b)[i])
        is Some by {
        let v = b[i / 2] as int;
        assert(0 <= v / 16 < 16 && 0 <= v % 16 < 16);
    }
}

/// Renderings identify their bytes: equal renderings, equal bytes.
pub proof fn lemma_hex_of_injective(a: Seq<u8>, b: Seq<u8>)
    requires
        hex_of(a) == hex_of(b),
    ensures
        a == b,
{
    assert(hex_of(a).len() == 2 * a.len());
    assert(hex_of(b).len() == 2 * b.len());
    assert(2 * a.len() == 2 * b.len());
    assert forall|i: int| 0 <= i < a.len() implies a[i] == b[i] by {
        assert(0 <= 2 * i < hex_of(a).len() && 2 * i + 1 < hex_of(a).len());
        assert(hex_of(a)[2 * i] == hex_of(b)[2 * i]);
        assert(hex_of(a)[2 * i + 1] == hex_of(b)[2 * i + 1]);
        assert((2 * i) % 2 == 0 && (2 * i) / 2 == i);
        assert((2 * i + 1) % 2 == 1 && (2 * i + 1) / 2 == i);
        let va = a[i] as int;
        let vb = b[i] as int;
        assert(hex_of(a)[2 * i] == hex_digit(va / 16));
        assert(hex_of(b)[2 * i] == hex_digit(vb / 16));
        assert(hex_of(a)[2 * i + 1] == hex_digit(va % 16));
        assert(hex_of(b)[2 * i + 1] == hex_digit(vb % 16));
        assert(hex_digit(va / 16) == hex_digit(vb / 16));
        assert(hex_digit(va % 16) == hex_digit(vb % 16));
        assert(va / 16 == vb / 16 && va % 16 == vb % 16);
        assert(va == 16 * (va / 16) + va % 16);
        assert(vb == 16 * (vb / 16) + vb % 16);
    }
    assert(a =~= b);
}

/// Binary data in its hexadecimal text form: a sequence of ASCII digits.
#[derive(Debug)]
pub struct Hex(pub Vec<u8>);

impl Hex {
    /// Renders bytes as lowercase hexadecimal.
    pub fn from_bytes(bytes: &[u8]) -> (r: Hex)
        ensures
            r.0@ == hex_of(bytes@),
    {
        let n = bytes.len();
        let mut out: Vec<u8> = Vec::new();
        let mut i: usize = 0;
        while i < n
            invariant
                0 <= i <= n,
                bytes@.len() == n,
                out@.len() == 2 * i,
                forall|j: int| 0 <= j < 2 * i ==> #[trigger] out@[j] == hex_of(bytes@)[j],
            decreases n - i,
        {
            let b = bytes[i];
            let hi = b / 16;
            let lo = b % 16;
            let dh = if hi <= 9 {
                hi + 48
            } else {
                hi + 87
            };
            let dl = if lo <= 9 {
                lo + 48
            } else {
                lo + 87
            };
            out.push(dh);
            out.push(dl);
            proof {
                assert(hex_of(bytes@)[2 * i] == hex_digit(bytes@[i as int] as int / 16));
                assert(hex_of(bytes@)[2 * i + 1] == hex_digit(bytes@[i as int] as int % 16));
            }
            i = i + 1;
        }
        proof {
            assert(out@ =~= hex_of(bytes@));
        }
        Hex(out)
    }

    /// Decodes the rendering back to bytes: succeeds exactly on valid
    /// hexadecimal, and the bytes render back to this text.
    pub fn to_bytes(&self) -> (r: Option<Vec<u8>>)
        ensures
            match r {
                Some(v) => hex_of(v@) == self.0@,
                None => !hex_valid(self.0@),
            },
    {
        let n = self.0.len();
        if n % 2 != 0 {
            return None;
        }
        let mut out: Vec<u8> = Vec::new();
        let mut i: usize = 0;
        while i < n / 2
            invariant
                0 <= i <= n / 2,
                self.0@.len() == n,
                n % 2 == 0,
                out@.len() == i,
                forall|j: int|
                    0 <= j < 2 * i ==> hex_val(#[trigger] self.0@[j]) is Some,
                forall|j: int|
                    0 <= j < i ==> #[trigger] hex_of(out@)[2 * j] == self.0@[2 * j] && hex_of(
                        out@,
                    )[2 * j + 1] == self.0@[2 * j + 1],
            decreases n / 2 - i,
        {
            let ghost out0 = out@;
            let dh = self.0[2 * i];
            let dl = self.0[2 * i + 1];
            let hi = if 48 <= dh && dh <= 57 {
                dh - 48
            } else if 97 <= dh && dh <= 102 {
                dh - 87
            } else {
                return None;
            };
            let lo = if 48 <= dl && dl <= 57 {
                dl - 48
            } else if 97 <= dl && dl <= 102 {
                dl - 87
            } else {
                return None;
            };
            let b = hi * 16 + lo;
            out.push(b);
            proof {
                assert(out@ == out0.push(b));
                assert(b as int / 16 == hi as int && b as int % 16 == lo as int);
                assert forall|j: int| 0 <= j < i + 1 implies #[trigger] hex_of(out@)[2 * j]
                    == self.0@[2 * j] && hex_of(out@)[2 * j + 1] == self.0@[2 * j + 1] by {
                    assert((2 * j) % 2 == 0 && (2 * j) / 2 == j);
                    assert((2 * j + 1) % 2 == 1 && (2 * j + 1) / 2 == j);
                    if j < i {
                        assert(out@[j] == out0[j]);
                        assert(hex_of(out0)[2 * j] == self.0@[2 * j]);
                        assert(hex_of(out0)[2 * j + 1] == self.0@[2 * j + 1]);
                    } else {
                        assert(out@[j] == b);
                        assert(hex_digit(b as int / 16) == dh);
                        assert(hex_digit(b as int % 16) == dl);
                    }
                }
            }
            i = i + 1;
        }
        proof {
            assert(hex_of(out@) =~= self.0@) by {
                assert(hex_of(out@).len() == self.0@.len());
                assert forall|k: int| 0 <= k < self.0@.len() implies #[trigger] hex_of(out@)[k]
                    == self.0@[k] by {
                    let j = k / 2;
                    if k % 2 == 0 {
                        assert(k == 2 * j);
                        assert(hex_of(out@)[2 * j] == self.0@[2 * j]);
                    } else {
                        assert(k == 2 * j + 1);
                        assert(hex_of(out@)[2 * j] == self.0@[2 * j]);
                        assert(hex_of(out@)[2 * j + 1] == self.0@[2 * j + 1]);
                    }
                }
            }
        }
        Some(out)
    }
}

/// Splits a fingerprint's rendering into its storage layout: the first two
/// digits name the shard directory, the rest name the file.
pub fn shard(id: &Blob) -> (r: (Hex, Hex))
    requires
        blob_wf(*id),
    ensures
        r.0.0@ == hex_of(id@).take(2),
        r.1.0@ == hex_of(id@).skip(2),
        r.0.0@ + r.1.0@ == hex_of(id@),
{
    let full = Hex::from_bytes(id.0.as_slice());
    let mut dir: Vec<u8> = Vec::new();
    dir.push(full.0[0]);
    dir.push(full.0[1]);
    let mut file: Vec<u8> = Vec::new();
    let n = full.0.len();
    let mut i: usize = 2;
    while i < n
        invariant
            2 <= i <= n,
            full.0@.len() == n,
            n == 64,
            file@ =~= full.0@.subrange(2, i as int),
        decreases n - i,
    {
        file.push(full.0[i]);
        proof {
            assert(file@ =~= full.0@.subrange(2, i + 1));
        }
        i = i + 1;
    }
    proof {
        assert(dir@ =~= full.0@.take(2));
        assert(file@ =~= full.0@.skip(2));
        assert(dir@ + file@ =~= full.0@);
    }
    (Hex(dir), Hex(file))
}

} // verus!
