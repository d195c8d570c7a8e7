//! The archive's entity tag: a 64-bit FNV-1a hash over a canonical,
//! length-prefixed serialization of the manifest (archive name, then each
//! member's name, size, CRC and locator, in order), rendered as sixteen hex
//! digits wrapped in quotes. The serialization is injective, so the tag
//! changes with any member field or reordering up to hash collisions.

use vstd::prelude::*;
use vstd::string::StrSliceExecFns;
use vstd::string::StringExecFns;
use crate::encode::{le32, le64, push_u32, push_u64, push_bytes};
use crate::zip::{Member, Manifest};

verus! {

pub const FNV_OFFSET: u64 = 0xcbf2_9ce4_8422_2325;

pub const FNV_PRIME: u64 = 0x100_0000_01b3;

// ---------------------------------------------------------------------------
// Canonical serialization.
// ---------------------------------------------------------------------------

/// Each character as its code point, four little-endian bytes.
pub open spec fn enc_chars(s: Seq<char>) -> Seq<u8>
    decreases s.len(),
{
    if s.len() == 0 {
        Seq::empty()
    } else {
        enc_chars(s.drop_last()) + le32(s.last() as u32)
    }
}

/// A string, framed by its character count.
pub open spec fn enc_str(s: Seq<char>) -> Seq<u8> {
    le64(s.len() as u64) + enc_chars(s)
}

/// A byte string, framed by its length.
pub open spec fn enc_bytes(b: Seq<u8>) -> Seq<u8> {
    le64(b.len() as u64) + b
}

/// An optional version label, framed by a presence tag.
pub open spec fn enc_version(v: Option<String>) -> Seq<u8> {
    match v {
        Option::None => seq![0u8],
        Option::Some(s) => seq![1u8] + enc_str(s@),
    }
}

/// One member: name, size, CRC, then the locator fields.
pub open spec fn enc_member(m: Member) -> Seq<u8> {
    enc_bytes(m.name@) + le64(m.size) + le32(m.crc) + enc_str(m.locator.bucket@) + enc_str(
        m.locator.key@,
    ) + enc_version(m.locator.version)
}

pub open spec fn enc_members(ms: Seq<Member>) -> Seq<u8>
    decreases ms.len(),
{
    if ms.len() == 0 {
        Seq::empty()
    } else {
        enc_members(ms.drop_last()) + enc_member(ms.last())
    }
}

/// The canonical serialization of a whole manifest.
pub open spec fn canon_bytes(filename: Seq<char>, ms: Seq<Member>) -> Seq<u8> {
    enc_str(filename) + le64(ms.len() as u64) + enc_members(ms)
}

// ---------------------------------------------------------------------------
// FNV-1a 64.
// ---------------------------------------------------------------------------

pub open spec fn fnv_step(h: u64, b: u8) -> u64 {
    ((((h ^ (b as u64)) as nat) * (FNV_PRIME as nat)) % 0x1_0000_0000_0000_0000) as u64
}

pub open spec fn fnv64(bytes: Seq<u8>) -> u64
    decreases bytes.len(),
{
    if bytes.len() == 0 {
        FNV_OFFSET
    } else {
        fnv_step(fnv64(bytes.drop_last()), bytes.last())
    }
}

// ---------------------------------------------------------------------------
// Hex rendering.
// ---------------------------------------------------------------------------

pub open spec fn hex_digit(x: nat) -> char {
    if x == 0 {
        '0'
    } else if x == 1 {
        '1'
    } else if x == 2 {
        '2'
    } else if x == 3 {
        '3'
    } else if x == 4 {
        '4'
    } else if x == 5 {
        '5'
    } else if x == 6 {
        '6'
    } else if x == 7 {
        '7'
    } else if x == 8 {
        '8'
    } else if x == 9 {
        '9'
    } else if x == 10 {
        'a'
    } else if x == 11 {
        'b'
    } else if x == 12 {
        'c'
    } else if x == 13 {
        'd'
    } else if x == 14 {
        'e'
    } else {
        'f'
    }
}

/// The last `n` hex digits of `x`, most significant first.
pub open spec fn hex_rec(x: nat, n: nat) -> Seq<char>
    decreases n,
{
    if n == 0 {
        Seq::empty()
    } else {
        hex_rec(x / 16, (n - 1) as nat) + seq![hex_digit(x % 16)]
    }
}

/// The entity tag of a manifest: quoted sixteen-digit hex of the hash of
/// the canonical serialization.
pub open spec fn etag_spec(filename: Seq<char>, ms: Seq<Member>) -> Seq<char> {
    seq!['"'] + hex_rec(fnv64(canon_bytes(filename, ms)) as nat, 16) + seq!['"']
}

// ---------------------------------------------------------------------------
// Exec.
// ---------------------------------------------------------------------------

/// Append the framed encoding of a string.
fn push_enc_str(out: &mut Vec<u8>, s: &str)
    ensures
        final(out)@ == old(out)@ + enc_str(s@),
{
    let n = s.unicode_len();
    push_u64(out, n as u64);
    let mut i: usize = 0;
    while i < n
        invariant
            i <= n,
            n == s@.len(),
            out@ == old(out)@ + le64(n as u64) + enc_chars(s@.take(i as int)),
        decreases n - i,
    {
        let c = s.get_char(i);
        push_u32(out, c as u32);
        i = i + 1;
        proof {
            assert(s@.take(i as int).drop_last() =~= s@.take(i - 1));
            assert(s@.take(i as int).last() == s@[i - 1]);
            assert(out@ =~= old(out)@ + le64(n as u64) + enc_chars(s@.take(i as int)));
        }
    }
    proof {
        assert(s@.take(n as int) =~= s@);
        assert(out@ =~= old(out)@ + enc_str(s@));
    }
}

/// Append the canonical encoding of one member.
#[verifier::rlimit(50)]
fn push_enc_member(out: &mut Vec<u8>, m: &Member)
    ensures
        final(out)@ == old(out)@ + enc_member(*m),
{
    push_u64(out, m.name.len() as u64);
    push_bytes(out, &m.name);
    push_u64(out, m.size);
    push_u32(out, m.crc);
    push_enc_str(out, m.locator.bucket.as_str());
    push_enc_str(out, m.locator.key.as_str());
    match &m.locator.version {
        Option::None => {
            out.push(0u8);
            proof {
                assert(out@ =~= old(out)@ + enc_member(*m));
            }
        },
        Option::Some(v) => {
            out.push(1u8);
            push_enc_str(out, v.as_str());
            proof {
                assert(enc_version(m.locator.version) =~= seq![1u8] + enc_str(v@));
                assert(out@ =~= old(out)@ + enc_member(*m));
            }
        },
    }
}

/// The canonical serialization of a manifest.
pub fn canon_serialize(m: &Manifest) -> (r: Vec<u8>)
    ensures
        r@ == canon_bytes(m.filename@, m.members@),
{
    let mut out: Vec<u8> = Vec::new();
    push_enc_str(&mut out, m.filename.as_str());
    proof {
        assert(out@ =~= enc_str(m.filename@));
    }
    push_u64(&mut out, m.members.len() as u64);
    let n = m.members.len();
    let mut i: usize = 0;
    while i < n
        invariant
            i <= n,
            n == m.members@.len(),
            out@ == enc_str(m.filename@) + le64(n as u64) + enc_members(m.members@.take(i as int)),
        decreases n - i,
    {
        push_enc_member(&mut out, &m.members[i]);
        i = i + 1;
        proof {
            assert(m.members@.take(i as int).drop_last() =~= m.members@.take(i - 1));
            assert(m.members@.take(i as int).last() == m.members@[i - 1]);
            assert(out@ =~= enc_str(m.filename@) + le64(n as u64) + enc_members(
                m.members@.take(i as int),
            ));
        }
    }
    proof {
        assert(m.members@.take(n as int) =~= m.members@);
        assert(out@ =~= canon_bytes(m.filename@, m.members@));
    }
    out
}

/// FNV-1a 64 over a byte vector.
pub fn fnv_hash(bytes: &Vec<u8>) -> (r: u64)
    ensures
        r == fnv64(bytes@),
{
    let mut h: u64 = FNV_OFFSET;
    let mut i: usize = 0;
    while i < bytes.len()
        invariant
            i <= bytes@.len(),
            h == fnv64(bytes@.take(i as int)),
        decreases bytes@.len() - i,
    {
        h = (h ^ (bytes[i] as u64)).wrapping_mul(FNV_PRIME);
        i = i + 1;
        proof {
            assert(bytes@.take(i as int).drop_last() =~= bytes@.take(i - 1));
            assert(bytes@.take(i as int).last() == bytes@[i - 1]);
        }
    }
    proof {
        assert(bytes@.take(bytes@.len() as int) =~= bytes@);
    }
    h
}

/// A one-character string for one hex digit.
fn hex_digit_str(d: u64) -> (r: &'static str)
    requires
        d < 16,
    ensures
        r@ == seq![hex_digit(d as nat)],
{
    if d == 0 {
        proof {
            reveal_strlit("0");
        }
        "0"
    } else if d == 1 {
        proof {
            reveal_strlit("1");
        }
        "1"
    } else if d == 2 {
        proof {
            reveal_strlit("2");
        }
        "2"
    } else if d == 3 {
        proof {
            reveal_strlit("3");
        }
        "3"
    } else if d == 4 {
        proof {
            reveal_strlit("4");
        }
        "4"
    } else if d == 5 {
        proof {
            reveal_strlit("5");
        }
        "5"
    } else if d == 6 {
        proof {
            reveal_strlit("6");
        }
        "6"
    } else if d == 7 {
        proof {
            reveal_strlit("7");
        }
        "7"
    } else if d == 8 {
        proof {
            reveal_strlit("8");
        }
        "8"
    } else if d == 9 {
        proof {
            reveal_strlit("9");
        }
        "9"
    } else if d == 10 {
        proof {
            reveal_strlit("a");
        }
        "a"
    } else if d == 11 {
        proof {
            reveal_strlit("b");
        }
        "b"
    } else if d == 12 {
        proof {
            reveal_strlit("c");
        }
        "c"
    } else if d == 13 {
        proof {
            reveal_strlit("d");
        }
        "d"
    } else if d == 14 {
        proof {
            reveal_strlit("e");
        }
        "e"
    } else {
        proof {
            reveal_strlit("f");
        }
        "f"
    }
}

/// Append the last `n` hex digits of `x`, most significant first.
fn push_hex(out: &mut String, x: u64, n: usize)
    ensures
        final(out)@ == old(out)@ + hex_rec(x as nat, n as nat),
    decreases n,
{
    if n > 0 {
        push_hex(out, x / 16, n - 1);
        out.append(hex_digit_str(x % 16));
        proof {
            assert(out@ =~= old(out)@ + hex_rec(x as nat, n as nat));
        }
    } else {
        proof {
            assert(out@ =~= old(out)@ + hex_rec(x as nat, 0));
        }
    }
}

/// The entity tag of a manifest.
pub fn compute_etag(m: &Manifest) -> (r: String)
    ensures
        r@ == etag_spec(m.filename@, m.members@),
{
    let canon = canon_serialize(m);
    let h = fnv_hash(&canon);
    let mut out = String::new();
    proof {
        reveal_strlit("\"");
    }
    out.append("\"");
    push_hex(&mut out, h, 16);
    out.append("\"");
    proof {
        assert(out@ =~= etag_spec(m.filename@, m.members@));
    }
    out
}

} // verus!

verus! {

/// ETag stability: the entity tag is a pure function of the manifest, so
/// equal manifests always yield equal tags.
pub proof fn lemma_etag_stable(f1: Seq<char>, ms1: Seq<Member>, f2: Seq<char>, ms2: Seq<Member>)
    requires
        f1 == f2,
        ms1 == ms2,
    ensures
        etag_spec(f1, ms1) == etag_spec(f2, ms2),
{
}

pub open spec fn pow16(n: nat) -> nat
    decreases n,
{
    if n == 0 {
        1
    } else {
        16 * pow16((n - 1) as nat)
    }
}

proof fn lemma_hex_rec_len(x: nat, n: nat)
    ensures
        hex_rec(x, n).len() == n,
    decreases n,
{
    if n > 0 {
        lemma_hex_rec_len(x / 16, (n - 1) as nat);
    }
}

proof fn lemma_hex_rec_inj(x: nat, y: nat, n: nat)
    requires
        hex_rec(x, n) == hex_rec(y, n),
        x < pow16(n),
        y < pow16(n),
    ensures
        x == y,
    decreases n,
{
    if n > 0 {
        lemma_hex_rec_len(x / 16, (n - 1) as nat);
        lemma_hex_rec_len(y / 16, (n - 1) as nat);
        let hx = hex_rec(x / 16, (n - 1) as nat);
        let hy = hex_rec(y / 16, (n - 1) as nat);
        assert(hex_rec(x, n) == hx + seq![hex_digit(x % 16)]);
        assert(hex_rec(y, n) == hy + seq![hex_digit(y % 16)]);
        assert((hx + seq![hex_digit(x % 16)])[n - 1] == hex_digit(x % 16));
        assert((hy + seq![hex_digit(y % 16)])[n - 1] == hex_digit(y % 16));
        assert(hex_digit(x % 16) == hex_digit(y % 16));
        assert(x % 16 == y % 16);
        assert forall|t: int| 0 <= t < n - 1 implies hx[t] == hy[t] by {
            assert((hx + seq![hex_digit(x % 16)])[t] == hx[t]);
            assert((hy + seq![hex_digit(y % 16)])[t] == hy[t]);
        }
        assert(hx =~= hy);
        assert(x / 16 < pow16((n - 1) as nat)) by {
            if x / 16 >= pow16((n - 1) as nat) {
                assert(x >= 16 * pow16((n - 1) as nat));
            }
        }
        assert(y / 16 < pow16((n - 1) as nat)) by {
            if y / 16 >= pow16((n - 1) as nat) {
                assert(y >= 16 * pow16((n - 1) as nat));
            }
        }
        lemma_hex_rec_inj(x / 16, y / 16, (n - 1) as nat);
        assert(x == 16 * (x / 16) + x % 16);
        assert(y == 16 * (y / 16) + y % 16);
    }
}

/// ETag sensitivity, up to hash collisions: whenever the hashes of the
/// canonical serializations differ, the entity tags differ.
pub proof fn lemma_etag_sensitive(f1: Seq<char>, ms1: Seq<Member>, f2: Seq<char>, ms2: Seq<Member>)
    requires
        fnv64(canon_bytes(f1, ms1)) != fnv64(canon_bytes(f2, ms2)),
    ensures
        etag_spec(f1, ms1) != etag_spec(f2, ms2),
{
    let h1 = fnv64(canon_bytes(f1, ms1)) as nat;
    let h2 = fnv64(canon_bytes(f2, ms2)) as nat;
    lemma_hex_rec_len(h1, 16);
    lemma_hex_rec_len(h2, 16);
    assert(pow16(16) == 0x1_0000_0000_0000_0000) by {
        reveal_with_fuel(pow16, 17);
    }
    if etag_spec(f1, ms1) == etag_spec(f2, ms2) {
        let t1 = etag_spec(f1, ms1);
        let t2 = etag_spec(f2, ms2);
        assert forall|t: int| 0 <= t < 16 implies hex_rec(h1, 16)[t] == hex_rec(h2, 16)[t] by {
            assert(t1[t + 1] == hex_rec(h1, 16)[t]);
            assert(t2[t + 1] == hex_rec(h2, 16)[t]);
        }
        assert(hex_rec(h1, 16) =~= hex_rec(h2, 16));
        lemma_hex_rec_inj(h1, h2, 16);
    }
}

} // verus!

verus! {

// ---------------------------------------------------------------------------
// Injectivity of the canonical serialization.
// ---------------------------------------------------------------------------

/// A `char` is recoverable from its code point, so the cast to `u32` is
/// injective.
proof fn lemma_char_cast_roundtrip(c: char)
    ensures
        (c as u32) as char == c,
{
    vstd::utf8::char_u32_cast(c, c as u32);
}

proof fn lemma_concat_split(x1: Seq<u8>, y1: Seq<u8>, x2: Seq<u8>, y2: Seq<u8>)
    requires
        x1 + y1 == x2 + y2,
        x1.len() == x2.len(),
    ensures
        x1 == x2,
        y1 == y2,
{
    assert forall|t: int| 0 <= t < x1.len() implies x1[t] == x2[t] by {
        assert((x1 + y1)[t] == x1[t]);
        assert((x2 + y2)[t] == x2[t]);
    }
    assert(x1 =~= x2);
    assert((x1 + y1).len() == x1.len() + y1.len());
    assert((x2 + y2).len() == x2.len() + y2.len());
    assert(y1.len() == y2.len());
    assert forall|t: int| 0 <= t < y1.len() implies y1[t] == y2[t] by {
        assert((x1 + y1)[x1.len() + t] == y1[t]);
        assert((x2 + y2)[x2.len() + t] == y2[t]);
    }
    assert(y1 =~= y2);
}

proof fn lemma_le64_inj(a: u64, b: u64)
    requires
        le64(a) == le64(b),
    ensures
        a == b,
{
    assert(le64(a)[0] == le64(b)[0]);
    assert(le64(a)[1] == le64(b)[1]);
    assert(le64(a)[2] == le64(b)[2]);
    assert(le64(a)[3] == le64(b)[3]);
    assert(le64(a)[4] == le64(b)[4]);
    assert(le64(a)[5] == le64(b)[5]);
    assert(le64(a)[6] == le64(b)[6]);
    assert(le64(a)[7] == le64(b)[7]);
    assert(a % 0x100 == b % 0x100);
    assert((a / 0x100) % 0x100 == (b / 0x100) % 0x100);
    assert((a / 0x10000) % 0x100 == (b / 0x10000) % 0x100);
    assert((a / 0x1000000) % 0x100 == (b / 0x1000000) % 0x100);
    assert((a / 0x100000000) % 0x100 == (b / 0x100000000) % 0x100);
    assert((a / 0x10000000000) % 0x100 == (b / 0x10000000000) % 0x100);
    assert((a / 0x1000000000000) % 0x100 == (b / 0x1000000000000) % 0x100);
    assert((a / 0x100000000000000) % 0x100 == (b / 0x100000000000000) % 0x100);
    assert(a == b) by (bit_vector)
        requires
            a % 0x100 == b % 0x100,
            (a / 0x100) % 0x100 == (b / 0x100) % 0x100,
            (a / 0x10000) % 0x100 == (b / 0x10000) % 0x100,
            (a / 0x1000000) % 0x100 == (b / 0x1000000) % 0x100,
            (a / 0x100000000) % 0x100 == (b / 0x100000000) % 0x100,
            (a / 0x10000000000) % 0x100 == (b / 0x10000000000) % 0x100,
            (a / 0x1000000000000) % 0x100 == (b / 0x1000000000000) % 0x100,
            (a / 0x100000000000000) % 0x100 == (b / 0x100000000000000) % 0x100,
    ;
}

proof fn lemma_le32_inj(a: u32, b: u32)
    requires
        le32(a) == le32(b),
    ensures
        a == b,
{
    assert(le32(a)[0] == le32(b)[0]);
    assert(le32(a)[1] == le32(b)[1]);
    assert(le32(a)[2] == le32(b)[2]);
    assert(le32(a)[3] == le32(b)[3]);
    assert(a % 0x100 == b % 0x100);
    assert((a / 0x100) % 0x100 == (b / 0x100) % 0x100);
    assert((a / 0x10000) % 0x100 == (b / 0x10000) % 0x100);
    assert((a / 0x1000000) % 0x100 == (b / 0x1000000) % 0x100);
    assert(a == b) by (bit_vector)
        requires
            a % 0x100 == b % 0x100,
            (a / 0x100) % 0x100 == (b / 0x100) % 0x100,
            (a / 0x10000) % 0x100 == (b / 0x10000) % 0x100,
            (a / 0x1000000) % 0x100 == (b / 0x1000000) % 0x100,
    ;
}

proof fn lemma_le64_peel(a: u64, r1: Seq<u8>, b: u64, r2: Seq<u8>)
    requires
        le64(a) + r1 == le64(b) + r2,
    ensures
        a == b,
        r1 == r2,
{
    lemma_concat_split(le64(a), r1, le64(b), r2);
    lemma_le64_inj(a, b);
}

proof fn lemma_enc_chars_len(s: Seq<char>)
    ensures
        enc_chars(s).len() == 4 * s.len(),
    decreases s.len(),
{
    if s.len() > 0 {
        lemma_enc_chars_len(s.drop_last());
    }
}

proof fn lemma_enc_chars_inj(s1: Seq<char>, s2: Seq<char>)
    requires
        s1.len() == s2.len(),
        enc_chars(s1) == enc_chars(s2),
    ensures
        s1 == s2,
    decreases s1.len(),
{
    if s1.len() > 0 {
        lemma_enc_chars_len(s1.drop_last());
        lemma_enc_chars_len(s2.drop_last());
        lemma_concat_split(
            enc_chars(s1.drop_last()),
            le32(s1.last() as u32),
            enc_chars(s2.drop_last()),
            le32(s2.last() as u32),
        );
        lemma_le32_inj(s1.last() as u32, s2.last() as u32);
        lemma_char_cast_roundtrip(s1.last());
        lemma_char_cast_roundtrip(s2.last());
        assert(s1.last() as u32 == s2.last() as u32);
        assert(s1.last() == s2.last());
        lemma_enc_chars_inj(s1.drop_last(), s2.drop_last());
        assert(s1.drop_last() == s2.drop_last());
        assert forall|t: int| 0 <= t < s1.len() implies s1[t] == s2[t] by {
            if t < s1.len() - 1 {
                assert(s1[t] == s1.drop_last()[t]);
                assert(s2[t] == s2.drop_last()[t]);
            }
        }
        assert(s1 =~= s2);
    } else {
        assert(s1 =~= s2);
    }
}

} // verus!

verus! {

proof fn lemma_enc_str_peel(s1: Seq<char>, r1: Seq<u8>, s2: Seq<char>, r2: Seq<u8>)
    requires
        enc_str(s1) + r1 == enc_str(s2) + r2,
        s1.len() <= u64::MAX,
        s2.len() <= u64::MAX,
    ensures
        s1 == s2,
        r1 == r2,
{
    assert(enc_str(s1) + r1 =~= le64(s1.len() as u64) + (enc_chars(s1) + r1));
    assert(enc_str(s2) + r2 =~= le64(s2.len() as u64) + (enc_chars(s2) + r2));
    lemma_le64_peel(s1.len() as u64, enc_chars(s1) + r1, s2.len() as u64, enc_chars(s2) + r2);
    assert(s1.len() == s2.len());
    lemma_enc_chars_len(s1);
    lemma_enc_chars_len(s2);
    lemma_concat_split(enc_chars(s1), r1, enc_chars(s2), r2);
    lemma_enc_chars_inj(s1, s2);
}

proof fn lemma_enc_bytes_peel(b1: Seq<u8>, r1: Seq<u8>, b2: Seq<u8>, r2: Seq<u8>)
    requires
        enc_bytes(b1) + r1 == enc_bytes(b2) + r2,
        b1.len() <= u64::MAX,
        b2.len() <= u64::MAX,
    ensures
        b1 == b2,
        r1 == r2,
{
    assert(enc_bytes(b1) + r1 =~= le64(b1.len() as u64) + (b1 + r1));
    assert(enc_bytes(b2) + r2 =~= le64(b2.len() as u64) + (b2 + r2));
    lemma_le64_peel(b1.len() as u64, b1 + r1, b2.len() as u64, b2 + r2);
    lemma_concat_split(b1, r1, b2, r2);
}

proof fn lemma_le32_peel(a: u32, r1: Seq<u8>, b: u32, r2: Seq<u8>)
    requires
        le32(a) + r1 == le32(b) + r2,
    ensures
        a == b,
        r1 == r2,
{
    lemma_concat_split(le32(a), r1, le32(b), r2);
    lemma_le32_inj(a, b);
}

/// Two optional version labels carry the same characters.
pub open spec fn version_like(v1: Option<String>, v2: Option<String>) -> bool {
    match (v1, v2) {
        (Option::None, Option::None) => true,
        (Option::Some(a), Option::Some(b)) => a@ == b@,
        _ => false,
    }
}

proof fn lemma_enc_version_peel(v1: Option<String>, r1: Seq<u8>, v2: Option<String>, r2: Seq<u8>)
    requires
        enc_version(v1) + r1 == enc_version(v2) + r2,
        (v1 matches Option::Some(s) ==> s@.len() <= u64::MAX),
        (v2 matches Option::Some(s) ==> s@.len() <= u64::MAX),
    ensures
        version_like(v1, v2),
        r1 == r2,
{
    let t1 = (enc_version(v1) + r1)[0];
    match (v1, v2) {
        (Option::None, Option::None) => {
            lemma_concat_split(seq![0u8], r1, seq![0u8], r2);
        },
        (Option::Some(a), Option::Some(b)) => {
            assert(enc_version(v1) + r1 =~= seq![1u8] + (enc_str(a@) + r1));
            assert(enc_version(v2) + r2 =~= seq![1u8] + (enc_str(b@) + r2));
            lemma_concat_split(seq![1u8], enc_str(a@) + r1, seq![1u8], enc_str(b@) + r2);
            lemma_enc_str_peel(a@, r1, b@, r2);
        },
        (Option::None, Option::Some(b)) => {
            assert((enc_version(v1) + r1)[0] == 0u8);
            assert(enc_version(v2) + r2 =~= seq![1u8] + (enc_str(b@) + r2));
            assert((enc_version(v2) + r2)[0] == 1u8);
        },
        (Option::Some(a), Option::None) => {
            assert(enc_version(v1) + r1 =~= seq![1u8] + (enc_str(a@) + r1));
            assert((enc_version(v1) + r1)[0] == 1u8);
            assert((enc_version(v2) + r2)[0] == 0u8);
        },
    }
}

/// Two members carry the same name, size, CRC and locator.
pub open spec fn member_like(m1: Member, m2: Member) -> bool {
    &&& m1.name@ == m2.name@
    &&& m1.size == m2.size
    &&& m1.crc == m2.crc
    &&& m1.locator.bucket@ == m2.locator.bucket@
    &&& m1.locator.key@ == m2.locator.key@
    &&& version_like(m1.locator.version, m2.locator.version)
}

/// Every field a real string or vector can hold: of machine-bounded length.
pub open spec fn member_bounded(m: Member) -> bool {
    &&& m.name@.len() <= u64::MAX
    &&& m.locator.bucket@.len() <= u64::MAX
    &&& m.locator.key@.len() <= u64::MAX
    &&& (m.locator.version matches Option::Some(v) ==> v@.len() <= u64::MAX)
}

proof fn lemma_add_assoc(a: Seq<u8>, b: Seq<u8>, c: Seq<u8>)
    ensures
        (a + b) + c == a + (b + c),
{
    assert((a + b) + c =~= a + (b + c));
}

proof fn lemma_add_empty(a: Seq<u8>)
    ensures
        a + Seq::<u8>::empty() == a,
        Seq::<u8>::empty() + a == a,
{
    assert(a + Seq::<u8>::empty() =~= a);
    assert(Seq::<u8>::empty() + a =~= a);
}

proof fn lemma_member_chain(m: Member, r: Seq<u8>)
    ensures
        enc_member(m) + r == enc_bytes(m.name@) + (le64(m.size) + (le32(m.crc) + (enc_str(
            m.locator.bucket@,
        ) + (enc_str(m.locator.key@) + (enc_version(m.locator.version) + r))))),
{
    let a = enc_bytes(m.name@);
    let b = le64(m.size);
    let c = le32(m.crc);
    let d = enc_str(m.locator.bucket@);
    let e = enc_str(m.locator.key@);
    let f = enc_version(m.locator.version);
    lemma_add_assoc((((a + b) + c) + d) + e, f, r);
    lemma_add_assoc(((a + b) + c) + d, e, f + r);
    lemma_add_assoc((a + b) + c, d, e + (f + r));
    lemma_add_assoc(a + b, c, d + (e + (f + r)));
    lemma_add_assoc(a, b, c + (d + (e + (f + r))));
}

proof fn lemma_enc_member_peel(m1: Member, r1: Seq<u8>, m2: Member, r2: Seq<u8>)
    requires
        enc_member(m1) + r1 == enc_member(m2) + r2,
        member_bounded(m1),
        member_bounded(m2),
    ensures
        member_like(m1, m2),
        r1 == r2,
{
    let q1 = le64(m1.size) + (le32(m1.crc) + (enc_str(m1.locator.bucket@) + (enc_str(
        m1.locator.key@,
    ) + (enc_version(m1.locator.version) + r1))));
    let q2 = le64(m2.size) + (le32(m2.crc) + (enc_str(m2.locator.bucket@) + (enc_str(
        m2.locator.key@,
    ) + (enc_version(m2.locator.version) + r2))));
    lemma_member_chain(m1, r1);
    lemma_member_chain(m2, r2);
    lemma_enc_bytes_peel(m1.name@, q1, m2.name@, q2);
    lemma_le64_peel(
        m1.size,
        le32(m1.crc) + (enc_str(m1.locator.bucket@) + (enc_str(m1.locator.key@) + (enc_version(
            m1.locator.version,
        ) + r1))),
        m2.size,
        le32(m2.crc) + (enc_str(m2.locator.bucket@) + (enc_str(m2.locator.key@) + (enc_version(
            m2.locator.version,
        ) + r2))),
    );
    lemma_le32_peel(
        m1.crc,
        enc_str(m1.locator.bucket@) + (enc_str(m1.locator.key@) + (enc_version(
            m1.locator.version,
        ) + r1)),
        m2.crc,
        enc_str(m2.locator.bucket@) + (enc_str(m2.locator.key@) + (enc_version(
            m2.locator.version,
        ) + r2)),
    );
    lemma_enc_str_peel(
        m1.locator.bucket@,
        enc_str(m1.locator.key@) + (enc_version(m1.locator.version) + r1),
        m2.locator.bucket@,
        enc_str(m2.locator.key@) + (enc_version(m2.locator.version) + r2),
    );
    lemma_enc_str_peel(
        m1.locator.key@,
        enc_version(m1.locator.version) + r1,
        m2.locator.key@,
        enc_version(m2.locator.version) + r2,
    );
    lemma_enc_version_peel(m1.locator.version, r1, m2.locator.version, r2);
}

proof fn lemma_enc_members_front(ms: Seq<Member>)
    requires
        ms.len() > 0,
    ensures
        enc_members(ms) == enc_member(ms[0]) + enc_members(ms.drop_first()),
    decreases ms.len(),
{
    if ms.len() == 1 {
        assert(ms.drop_last() =~= Seq::<Member>::empty());
        assert(ms.drop_first() =~= Seq::<Member>::empty());
        assert(enc_members(ms) == enc_members(ms.drop_last()) + enc_member(ms.last()));
        assert(Seq::<u8>::empty() + enc_member(ms[0]) =~= enc_member(ms[0]));
        assert(enc_member(ms[0]) + Seq::<u8>::empty() =~= enc_member(ms[0]));
    } else {
        lemma_enc_members_front(ms.drop_last());
        assert(ms.drop_last()[0] == ms[0]);
        assert(ms.drop_last().drop_first() =~= ms.drop_first().drop_last());
        assert(ms.drop_first().last() == ms.last());
        assert(enc_members(ms) == (enc_member(ms[0]) + enc_members(ms.drop_first().drop_last()))
            + enc_member(ms.last()));
        assert(enc_members(ms.drop_first()) == enc_members(ms.drop_first().drop_last())
            + enc_member(ms.drop_first().last()));
        assert((enc_member(ms[0]) + enc_members(ms.drop_first().drop_last())) + enc_member(
            ms.last(),
        ) =~= enc_member(ms[0]) + (enc_members(ms.drop_first().drop_last()) + enc_member(
            ms.last(),
        )));
    }
}

/// Members in the same positions carry the same fields.
pub open spec fn members_like(ms1: Seq<Member>, ms2: Seq<Member>) -> bool {
    &&& ms1.len() == ms2.len()
    &&& forall|i: int| 0 <= i < ms1.len() ==> member_like(#[trigger] ms1[i], ms2[i])
}

pub open spec fn members_bounded(ms: Seq<Member>) -> bool {
    forall|i: int| 0 <= i < ms.len() ==> member_bounded(#[trigger] ms[i])
}

proof fn lemma_enc_members_peel(ms1: Seq<Member>, r1: Seq<u8>, ms2: Seq<Member>, r2: Seq<u8>)
    requires
        ms1.len() == ms2.len(),
        members_bounded(ms1),
        members_bounded(ms2),
        enc_members(ms1) + r1 == enc_members(ms2) + r2,
    ensures
        members_like(ms1, ms2),
        r1 == r2,
    decreases ms1.len(),
{
    if ms1.len() == 0 {
        lemma_add_empty(r1);
        lemma_add_empty(r2);
    } else {
        lemma_enc_members_front(ms1);
        lemma_enc_members_front(ms2);
        lemma_add_assoc(enc_member(ms1[0]), enc_members(ms1.drop_first()), r1);
        lemma_add_assoc(enc_member(ms2[0]), enc_members(ms2.drop_first()), r2);
        lemma_enc_member_peel(
            ms1[0],
            enc_members(ms1.drop_first()) + r1,
            ms2[0],
            enc_members(ms2.drop_first()) + r2,
        );
        lemma_enc_members_peel(ms1.drop_first(), r1, ms2.drop_first(), r2);
        assert forall|i: int| 0 <= i < ms1.len() implies member_like(
            #[trigger] ms1[i],
            ms2[i],
        ) by {
            if i > 0 {
                assert(ms1[i] == ms1.drop_first()[i - 1]);
                assert(ms2[i] == ms2.drop_first()[i - 1]);
            }
        }
    }
}

/// The canonical serialization is injective: two manifests that serialize
/// to the same bytes agree on the archive name and, member by member, on
/// every name, size, CRC and locator field. Together with the hex
/// rendering's injectivity, the entity tag separates any two manifests
/// whose 64-bit hashes do not collide.
pub proof fn lemma_canon_injective(
    f1: Seq<char>,
    ms1: Seq<Member>,
    f2: Seq<char>,
    ms2: Seq<Member>,
)
    requires
        canon_bytes(f1, ms1) == canon_bytes(f2, ms2),
        f1.len() <= u64::MAX,
        f2.len() <= u64::MAX,
        ms1.len() <= u64::MAX,
        ms2.len() <= u64::MAX,
        members_bounded(ms1),
        members_bounded(ms2),
    ensures
        f1 == f2,
        members_like(ms1, ms2),
{
    lemma_add_assoc(enc_str(f1), le64(ms1.len() as u64), enc_members(ms1));
    lemma_add_assoc(enc_str(f2), le64(ms2.len() as u64), enc_members(ms2));
    lemma_enc_str_peel(
        f1,
        le64(ms1.len() as u64) + enc_members(ms1),
        f2,
        le64(ms2.len() as u64) + enc_members(ms2),
    );
    lemma_le64_peel(ms1.len() as u64, enc_members(ms1), ms2.len() as u64, enc_members(ms2));
    assert(ms1.len() == ms2.len());
    lemma_add_empty(enc_members(ms1));
    lemma_add_empty(enc_members(ms2));
    lemma_enc_members_peel(ms1, Seq::<u8>::empty(), ms2, Seq::<u8>::empty());
}

} // verus!
