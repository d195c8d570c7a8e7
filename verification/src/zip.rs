//! The ZIP layout planner: computes, from a manifest of members, the
//! byte-exact plan of the archive — per-member local-file-header and
//! central-directory blocks, a single end region, every region's absolute
//! offset, and the total length — without ever reading a member body.
//!
//! Members are stored uncompressed; names are flagged UTF-8; the
//! modification timestamp is the fixed sentinel 1980-01-01 00:00:00 so that
//! the layout is a pure function of the manifest.

use vstd::prelude::*;
use crate::encode::{le16, le32, le64, push_u16, push_u32, push_u64, push_bytes};

verus! {

/// Where a member body lives in the object store.
pub struct Locator {
    pub bucket: String,
    pub key: String,
    pub version: Option<String>,
}

/// One declared archive entry. `name` holds the UTF-8 bytes of the file
/// name; `crc` is the standard ZIP CRC-32 of the body, precomputed by the
/// manifest producer; the body itself is never read by the planner.
pub struct Member {
    pub name: Vec<u8>,
    pub size: u64,
    pub crc: u32,
    pub locator: Locator,
}

/// An ordered sequence of members plus the archive-level file name used for
/// `Content-Disposition`.
pub struct Manifest {
    pub filename: String,
    pub members: Vec<Member>,
}

/// Why a layout could not be built.
#[derive(Clone, Copy, Debug, PartialEq, Eq, Structural)]
pub enum LayoutError {
    /// The manifest lists no members.
    EmptyManifest,
    /// A member name is empty, starts with `/`, contains a NUL byte, or does
    /// not fit the 16-bit name-length field.
    InvalidName,
    /// Some offset or the total length exceeds the 64-bit address space.
    LayoutTooLarge,
}

/// A size or offset at or above this value must be carried in a ZIP64 field.
pub const ZIP64_LIMIT: u64 = 0xFFFF_FFFF;

/// A ZIP64 field must carry the member count at or above this value.
pub const ZIP64_COUNT_LIMIT: usize = 0xFFFF;

pub open spec fn needs_zip64(x: nat) -> bool {
    x >= 0xFFFF_FFFF
}

/// A usable member name: non-empty UTF-8 bytes, no NUL, not absolute, and
/// short enough for the 16-bit name-length field.
pub open spec fn valid_name(name: Seq<u8>) -> bool {
    &&& name.len() > 0
    &&& name.len() <= 0xFFFF
    &&& name[0] != 47
    &&& forall|i: int| 0 <= i < name.len() ==> name[i] != 0
}

pub open spec fn all_names_valid(ms: Seq<Member>) -> bool {
    forall|i: int| 0 <= i < ms.len() ==> valid_name(#[trigger] ms[i].name@)
}

// ---------------------------------------------------------------------------
// Region lengths and offsets, as closed-form functions of the metadata.
// ---------------------------------------------------------------------------

/// Length of a member's local-file-header region: 30 fixed bytes, the name,
/// and a 20-byte ZIP64 extra field when the size needs one.
pub open spec fn local_header_len(m: Member) -> nat {
    30 + m.name@.len() + if needs_zip64(m.size as nat) { 20nat } else { 0nat }
}

/// How many of {uncompressed size, compressed size, local-header offset}
/// must move into the central entry's ZIP64 extra field.
pub open spec fn central_extra_count(size: u64, header_offset: nat) -> nat {
    (if needs_zip64(size as nat) { 2nat } else { 0nat }) + (if needs_zip64(header_offset) { 1nat } else { 0nat })
}

pub open spec fn central_extra_len(size: u64, header_offset: nat) -> nat {
    if central_extra_count(size, header_offset) > 0 {
        4 + 8 * central_extra_count(size, header_offset)
    } else {
        0
    }
}

/// Length of a member's central-directory entry: 46 fixed bytes, the name,
/// and the ZIP64 extra field if any 32-bit field overflows.
pub open spec fn central_entry_len(m: Member, header_offset: nat) -> nat {
    46 + m.name@.len() + central_extra_len(m.size, header_offset)
}

/// Absolute offset of member `i`'s local-file-header: everything before it
/// is the headers and bodies of members `0..i`.
pub open spec fn header_offset_spec(ms: Seq<Member>, i: int) -> nat
    decreases i,
{
    if i <= 0 {
        0
    } else {
        header_offset_spec(ms, i - 1) + local_header_len(ms[i - 1]) + ms[i - 1].size as nat
    }
}

/// Absolute offset of the central directory.
pub open spec fn cd_offset_spec(ms: Seq<Member>) -> nat {
    header_offset_spec(ms, ms.len() as int)
}

/// Total length of the first `i` central-directory entries.
pub open spec fn cd_size_upto(ms: Seq<Member>, i: int) -> nat
    decreases i,
{
    if i <= 0 {
        0
    } else {
        cd_size_upto(ms, i - 1) + central_entry_len(ms[i - 1], header_offset_spec(ms, i - 1))
    }
}

pub open spec fn cd_size_spec(ms: Seq<Member>) -> nat {
    cd_size_upto(ms, ms.len() as int)
}

/// Whether the end of the archive needs the ZIP64 end record and locator.
pub open spec fn needs_zip64_end(ms: Seq<Member>) -> bool {
    ||| needs_zip64(cd_offset_spec(ms))
    ||| needs_zip64(cd_size_spec(ms))
    ||| ms.len() >= 0xFFFF
}

/// Length of the end region: the 22-byte end-of-central-directory record,
/// preceded by the 56-byte ZIP64 end record and 20-byte locator when needed.
pub open spec fn end_len_spec(ms: Seq<Member>) -> nat {
    22 + if needs_zip64_end(ms) { 76nat } else { 0nat }
}

/// Total archive length as an unbounded natural; the layout is buildable
/// only when this fits in `u64`.
pub open spec fn total_len_spec(ms: Seq<Member>) -> nat {
    cd_offset_spec(ms) + cd_size_spec(ms) + end_len_spec(ms)
}

/// The manifests from which a layout can be built.
pub open spec fn buildable(ms: Seq<Member>) -> bool {
    &&& ms.len() > 0
    &&& all_names_valid(ms)
    &&& total_len_spec(ms) <= u64::MAX
}

/// The error owed for an unbuildable manifest: an empty manifest is
/// reported first, then a bad name, then overflow.
pub open spec fn expected_error(ms: Seq<Member>) -> LayoutError {
    if ms.len() == 0 {
        LayoutError::EmptyManifest
    } else if !all_names_valid(ms) {
        LayoutError::InvalidName
    } else {
        LayoutError::LayoutTooLarge
    }
}

// ---------------------------------------------------------------------------
// The constant byte blocks, bit-exact.
// ---------------------------------------------------------------------------

/// A 32-bit size/offset field: the real value, or the ZIP64 escape.
pub open spec fn stored32(x: u64) -> u32 {
    if needs_zip64(x as nat) {
        0xFFFF_FFFFu32
    } else {
        x as u32
    }
}

/// Version needed to extract: 4.5 when a ZIP64 field is emitted, else 2.0.
pub open spec fn version_local(size: u64) -> u16 {
    if needs_zip64(size as nat) {
        45
    } else {
        20
    }
}

pub open spec fn version_central(size: u64, header_offset: nat) -> u16 {
    if central_extra_count(size, header_offset) > 0 {
        45
    } else {
        20
    }
}

/// ZIP64 extra field of a local header: uncompressed then compressed size.
pub open spec fn local_extra_bytes(size: u64) -> Seq<u8> {
    if needs_zip64(size as nat) {
        le16(1) + le16(16) + le64(size) + le64(size)
    } else {
        Seq::empty()
    }
}

/// The local-file-header block of one member.
pub open spec fn local_header_bytes(m: Member) -> Seq<u8> {
    le32(0x04034b50) + le16(version_local(m.size)) + le16(0x0800) + le16(0) + le16(0) + le16(0x21)
        + le32(m.crc) + le32(stored32(m.size)) + le32(stored32(m.size))
        + le16(m.name@.len() as u16)
        + le16(local_extra_bytes(m.size).len() as u16) + m.name@ + local_extra_bytes(m.size)
}

/// ZIP64 extra field of a central entry: in order, only those of
/// {uncompressed size, compressed size, local-header offset} that overflow.
pub open spec fn central_extra_bytes(size: u64, header_offset: u64) -> Seq<u8> {
    if central_extra_count(size, header_offset as nat) > 0 {
        le16(1) + le16((8 * central_extra_count(size, header_offset as nat)) as u16)
            + (if needs_zip64(size as nat) { le64(size) + le64(size) } else { Seq::empty() })
            + (if needs_zip64(header_offset as nat) { le64(header_offset) } else { Seq::empty() })
    } else {
        Seq::empty()
    }
}

/// The central-directory entry of one member.
pub open spec fn central_entry_bytes(m: Member, header_offset: u64) -> Seq<u8> {
    le32(0x02014b50) + le16(version_central(m.size, header_offset as nat))
        + le16(version_central(m.size, header_offset as nat)) + le16(0x0800) + le16(0) + le16(0)
        + le16(0x21) + le32(m.crc) + le32(stored32(m.size)) + le32(stored32(m.size))
        + le16(m.name@.len() as u16)
        + le16(central_extra_bytes(m.size, header_offset).len() as u16) + le16(0) + le16(0)
        + le16(0) + le32(0) + le32(stored32(header_offset)) + m.name@
        + central_extra_bytes(m.size, header_offset)
}

/// A 16-bit count field: the real value, or the ZIP64 escape.
pub open spec fn stored16(x: nat) -> u16 {
    if x >= 0xFFFF {
        0xFFFFu16
    } else {
        x as u16
    }
}

/// The end-of-central-directory record.
pub open spec fn eocd_bytes(count: nat, cd_offset: u64, cd_size: u64) -> Seq<u8> {
    le32(0x06054b50) + le16(0) + le16(0) + le16(stored16(count)) + le16(stored16(count))
        + le32(stored32(cd_size)) + le32(stored32(cd_offset)) + le16(0)
}

/// The ZIP64 end-of-central-directory record.
pub open spec fn zip64_eocd_bytes(count: nat, cd_offset: u64, cd_size: u64) -> Seq<u8> {
    le32(0x06064b50) + le64(44) + le16(45) + le16(45) + le32(0) + le32(0) + le64(count as u64)
        + le64(count as u64) + le64(cd_size) + le64(cd_offset)
}

/// The ZIP64 end-of-central-directory locator; it points at the ZIP64 end
/// record, which sits at the end of the central directory.
pub open spec fn zip64_locator_bytes(cd_offset: u64, cd_size: u64) -> Seq<u8> {
    le32(0x07064b50) + le32(0) + le64((cd_offset + cd_size) as u64) + le32(1)
}

/// The whole end region.
pub open spec fn end_bytes(count: nat, cd_offset: u64, cd_size: u64, zip64: bool) -> Seq<u8> {
    if zip64 {
        zip64_eocd_bytes(count, cd_offset, cd_size) + zip64_locator_bytes(cd_offset, cd_size)
            + eocd_bytes(count, cd_offset, cd_size)
    } else {
        eocd_bytes(count, cd_offset, cd_size)
    }
}

} // verus!


verus! {

// ---------------------------------------------------------------------------
// Exec builders for the constant blocks.
// ---------------------------------------------------------------------------

/// Build the local-file-header block of one member.
pub fn build_local_header(m: &Member) -> (r: Vec<u8>)
    requires
        valid_name(m.name@),
    ensures
        r@ == local_header_bytes(*m),
{
    let mut out: Vec<u8> = Vec::new();
    let zip64 = m.size >= ZIP64_LIMIT;
    let version: u16 = if zip64 { 45 } else { 20 };
    let extra_len: u16 = if zip64 { 20 } else { 0 };
    push_u32(&mut out, 0x04034b50);
    proof {
        assert(out@ =~= le32(0x04034b50));
    }
    push_u16(&mut out, version);
    push_u16(&mut out, 0x0800);
    push_u16(&mut out, 0);
    push_u16(&mut out, 0);
    push_u16(&mut out, 0x21);
    push_u32(&mut out, m.crc);
    let sz32: u32 = if zip64 { 0xFFFF_FFFF } else { m.size as u32 };
    push_u32(&mut out, sz32);
    push_u32(&mut out, sz32);
    push_u16(&mut out, m.name.len() as u16);
    proof {
        if zip64 {
            assert(local_extra_bytes(m.size).len() == 20);
        } else {
            assert(local_extra_bytes(m.size).len() == 0);
        }
    }
    push_u16(&mut out, extra_len);
    push_bytes(&mut out, &m.name);
    if zip64 {
        push_u16(&mut out, 1);
        push_u16(&mut out, 16);
        push_u64(&mut out, m.size);
        push_u64(&mut out, m.size);
    }
    proof {
        assert(out@ =~= local_header_bytes(*m));
    }
    out
}

/// Build the central-directory entry of one member whose local header sits
/// at `header_offset`.
pub fn build_central_entry(m: &Member, header_offset: u64) -> (r: Vec<u8>)
    requires
        valid_name(m.name@),
    ensures
        r@ == central_entry_bytes(*m, header_offset),
{
    let mut out: Vec<u8> = Vec::new();
    let size64 = m.size >= ZIP64_LIMIT;
    let off64 = header_offset >= ZIP64_LIMIT;
    let extra_count: u16 = (if size64 { 2 } else { 0 }) + (if off64 { 1 } else { 0 });
    let version: u16 = if extra_count > 0 { 45 } else { 20 };
    let extra_len: u16 = if extra_count > 0 { 4 + 8 * extra_count } else { 0 };
    push_u32(&mut out, 0x02014b50);
    proof {
        assert(out@ =~= le32(0x02014b50));
    }
    push_u16(&mut out, version);
    push_u16(&mut out, version);
    push_u16(&mut out, 0x0800);
    push_u16(&mut out, 0);
    push_u16(&mut out, 0);
    push_u16(&mut out, 0x21);
    push_u32(&mut out, m.crc);
    let sz32: u32 = if size64 { 0xFFFF_FFFF } else { m.size as u32 };
    push_u32(&mut out, sz32);
    push_u32(&mut out, sz32);
    push_u16(&mut out, m.name.len() as u16);
    proof {
        assert(extra_count as nat == central_extra_count(m.size, header_offset as nat));
        if extra_count > 0 {
            assert(central_extra_bytes(m.size, header_offset).len() == 4 + 8
                * central_extra_count(m.size, header_offset as nat));
        } else {
            assert(central_extra_bytes(m.size, header_offset).len() == 0);
        }
    }
    push_u16(&mut out, extra_len);
    push_u16(&mut out, 0);
    push_u16(&mut out, 0);
    push_u16(&mut out, 0);
    push_u32(&mut out, 0);
    let off32: u32 = if off64 { 0xFFFF_FFFF } else { header_offset as u32 };
    push_u32(&mut out, off32);
    push_bytes(&mut out, &m.name);
    if extra_count > 0 {
        push_u16(&mut out, 1);
        push_u16(&mut out, 8 * extra_count);
        if size64 {
            push_u64(&mut out, m.size);
            push_u64(&mut out, m.size);
        }
        if off64 {
            push_u64(&mut out, header_offset);
        }
    }
    proof {
        assert(out@ =~= central_entry_bytes(*m, header_offset));
    }
    out
}

/// Build the end region: optionally the ZIP64 end record and locator, then
/// the end-of-central-directory record.
#[verifier::rlimit(50)]
pub fn build_end(count: usize, cd_offset: u64, cd_size: u64, zip64: bool) -> (r: Vec<u8>)
    requires
        cd_offset + cd_size <= u64::MAX,
    ensures
        r@ == end_bytes(count as nat, cd_offset, cd_size, zip64),
{
    let mut out: Vec<u8> = Vec::new();
    if zip64 {
        push_u32(&mut out, 0x06064b50);
        proof {
            assert(out@ =~= le32(0x06064b50));
        }
        push_u64(&mut out, 44);
        push_u16(&mut out, 45);
        push_u16(&mut out, 45);
        push_u32(&mut out, 0);
        push_u32(&mut out, 0);
        push_u64(&mut out, count as u64);
        push_u64(&mut out, count as u64);
        push_u64(&mut out, cd_size);
        push_u64(&mut out, cd_offset);
        proof {
            assert(out@ =~= zip64_eocd_bytes(count as nat, cd_offset, cd_size));
        }
        push_u32(&mut out, 0x07064b50);
        push_u32(&mut out, 0);
        push_u64(&mut out, cd_offset + cd_size);
        push_u32(&mut out, 1);
        proof {
            assert(out@ =~= zip64_eocd_bytes(count as nat, cd_offset, cd_size)
                + zip64_locator_bytes(cd_offset, cd_size));
        }
    }
    let count16: u16 = if count >= ZIP64_COUNT_LIMIT { 0xFFFF } else { count as u16 };
    let size32: u32 = if cd_size >= ZIP64_LIMIT { 0xFFFF_FFFF } else { cd_size as u32 };
    let off32: u32 = if cd_offset >= ZIP64_LIMIT { 0xFFFF_FFFF } else { cd_offset as u32 };
    let ghost before = out@;
    push_u32(&mut out, 0x06054b50);
    push_u16(&mut out, 0);
    push_u16(&mut out, 0);
    push_u16(&mut out, count16);
    push_u16(&mut out, count16);
    push_u32(&mut out, size32);
    push_u32(&mut out, off32);
    push_u16(&mut out, 0);
    proof {
        assert(out@ =~= before + eocd_bytes(count as nat, cd_offset, cd_size));
        assert(out@ =~= end_bytes(count as nat, cd_offset, cd_size, zip64));
    }
    out
}

} // verus!

verus! {

// ---------------------------------------------------------------------------
// Regions: the partition of the archive's address space.
// ---------------------------------------------------------------------------

/// One contiguous region of the archive: either a materialized constant
/// block (header, central entry, end records) or a member body, which is
/// never materialized by the planner.
pub enum Region {
    Const { offset: u64, bytes: Vec<u8> },
    Body { offset: u64, member_index: usize, size: u64 },
}

pub open spec fn region_offset(r: Region) -> u64 {
    match r {
        Region::Const { offset, .. } => offset,
        Region::Body { offset, .. } => offset,
    }
}

pub open spec fn region_is_body(r: Region) -> bool {
    r is Body
}

pub open spec fn region_len(r: Region) -> nat {
    match r {
        Region::Const { bytes, .. } => bytes@.len(),
        Region::Body { size, .. } => size as nat,
    }
}

pub open spec fn region_const_bytes(r: Region) -> Seq<u8> {
    match r {
        Region::Const { bytes, .. } => bytes@,
        Region::Body { .. } => Seq::empty(),
    }
}

pub open spec fn region_member_index(r: Region) -> int {
    match r {
        Region::Const { .. } => 0,
        Region::Body { member_index, .. } => member_index as int,
    }
}

/// Sum of the lengths of the first `i` regions.
pub open spec fn prefix_len(rs: Seq<Region>, i: int) -> nat
    decreases i,
{
    if i <= 0 {
        0
    } else {
        prefix_len(rs, i - 1) + region_len(rs[i - 1])
    }
}

/// Sum of the lengths of the regions from `j` on.
pub open spec fn suffix_len(rs: Seq<Region>, j: int) -> nat
    decreases rs.len() - j,
{
    if 0 <= j < rs.len() {
        region_len(rs[j]) + suffix_len(rs, j + 1)
    } else {
        0
    }
}

/// The regions partition the address space: each starts exactly where its
/// predecessors end.
pub open spec fn regions_contiguous(rs: Seq<Region>) -> bool {
    forall|i: int| 0 <= i < rs.len() ==> region_offset(#[trigger] rs[i]) as nat == prefix_len(rs, i)
}

pub proof fn lemma_prefix_len_push(rs: Seq<Region>, x: Region, i: int)
    requires
        0 <= i <= rs.len(),
    ensures
        prefix_len(rs.push(x), i) == prefix_len(rs, i),
    decreases i,
{
    if i > 0 {
        lemma_prefix_len_push(rs, x, i - 1);
        assert(rs.push(x)[i - 1] == rs[i - 1]);
    }
}

/// Appending a region whose offset is the current end keeps the region list
/// contiguous.
pub proof fn lemma_push_region(rs: Seq<Region>, x: Region)
    requires
        regions_contiguous(rs),
        region_offset(x) as nat == prefix_len(rs, rs.len() as int),
    ensures
        regions_contiguous(rs.push(x)),
        prefix_len(rs.push(x), rs.len() as int + 1) == prefix_len(rs, rs.len() as int) + region_len(x),
{
    let rs2 = rs.push(x);
    assert forall|i: int| 0 <= i < rs2.len() implies region_offset(rs2[i]) as nat == prefix_len(
        rs2,
        i,
    ) by {
        lemma_prefix_len_push(rs, x, i);
        if i < rs.len() {
            assert(rs2[i] == rs[i]);
        } else {
            assert(rs2[i] == x);
        }
    }
    lemma_prefix_len_push(rs, x, rs.len() as int);
    assert(rs2[rs.len() as int] == x);
}

pub proof fn lemma_prefix_suffix(rs: Seq<Region>, j: int)
    requires
        0 <= j <= rs.len(),
    ensures
        prefix_len(rs, j) + suffix_len(rs, j) == suffix_len(rs, 0),
    decreases j,
{
    if j > 0 {
        lemma_prefix_suffix(rs, j - 1);
        lemma_suffix_unfold(rs, j - 1);
    }
}

proof fn lemma_suffix_unfold(rs: Seq<Region>, j: int)
    requires
        0 <= j < rs.len(),
    ensures
        suffix_len(rs, j) == region_len(rs[j]) + suffix_len(rs, j + 1),
{
}

// ---------------------------------------------------------------------------
// The archive's content, given an assignment of body bytes.
// ---------------------------------------------------------------------------

/// The bytes a region contributes: its constant block, or the member body
/// the given assignment carries for it.
pub open spec fn region_bytes(r: Region, bodies: Seq<Seq<u8>>) -> Seq<u8> {
    if region_is_body(r) {
        bodies[region_member_index(r)]
    } else {
        region_const_bytes(r)
    }
}

/// Concatenation of the regions from `j` on.
pub open spec fn concat_from(rs: Seq<Region>, bodies: Seq<Seq<u8>>, j: int) -> Seq<u8>
    decreases rs.len() - j,
{
    if 0 <= j < rs.len() {
        region_bytes(rs[j], bodies) + concat_from(rs, bodies, j + 1)
    } else {
        Seq::empty()
    }
}

/// A body assignment fits a region list when every body region finds a body
/// of exactly its declared size.
pub open spec fn bodies_fit(rs: Seq<Region>, bodies: Seq<Seq<u8>>) -> bool {
    forall|j: int|
        0 <= j < rs.len() && region_is_body(#[trigger] rs[j]) ==> {
            &&& 0 <= region_member_index(rs[j]) < bodies.len()
            &&& bodies[region_member_index(rs[j])].len() == region_len(rs[j])
        }
}

pub proof fn lemma_concat_from_len(rs: Seq<Region>, bodies: Seq<Seq<u8>>, j: int)
    requires
        0 <= j <= rs.len(),
        bodies_fit(rs, bodies),
    ensures
        concat_from(rs, bodies, j).len() == suffix_len(rs, j),
    decreases rs.len() - j,
{
    if j < rs.len() {
        lemma_concat_from_len(rs, bodies, j + 1);
    }
}

/// The concatenation from region `j` on is the tail of the whole archive
/// starting at region `j`'s offset.
pub proof fn lemma_concat_from_tail(rs: Seq<Region>, bodies: Seq<Seq<u8>>, j: int)
    requires
        0 <= j <= rs.len(),
        bodies_fit(rs, bodies),
    ensures
        concat_from(rs, bodies, j) == concat_from(rs, bodies, 0).subrange(
            prefix_len(rs, j) as int,
            suffix_len(rs, 0) as int,
        ),
    decreases j,
{
    lemma_concat_from_len(rs, bodies, 0);
    lemma_concat_from_len(rs, bodies, j);
    lemma_prefix_suffix(rs, j);
    if j == 0 {
        assert(concat_from(rs, bodies, 0) =~= concat_from(rs, bodies, 0).subrange(
            0,
            suffix_len(rs, 0) as int,
        ));
    } else {
        lemma_concat_from_tail(rs, bodies, j - 1);
        lemma_concat_from_len(rs, bodies, j - 1);
        lemma_prefix_suffix(rs, j - 1);
        let a = concat_from(rs, bodies, 0);
        let l = suffix_len(rs, 0) as int;
        let pj1 = prefix_len(rs, j - 1) as int;
        let rb = region_bytes(rs[j - 1], bodies);
        let cj = concat_from(rs, bodies, j);
        let cj1 = concat_from(rs, bodies, j - 1);
        assert(rb.len() == region_len(rs[j - 1]));
        let rlen = rb.len() as int;
        let pj = prefix_len(rs, j) as int;
        assert(pj == pj1 + rlen);
        assert(cj1 == a.subrange(pj1, l));
        assert(cj1 == rb + cj);
        assert(cj.len() == l - pj);
        assert forall|t: int| 0 <= t < cj.len() implies cj[t] == a.subrange(pj, l)[t] by {
            assert(cj1[rlen + t] == cj[t]);
            assert(cj1[rlen + t] == a[pj1 + rlen + t]);
            assert(a.subrange(pj, l)[t] == a[pj + t]);
        }
        assert(cj =~= a.subrange(pj, l));
    }
}

/// The slice of the archive covered by region `j` is exactly that region's
/// bytes.
pub proof fn lemma_region_slice(rs: Seq<Region>, bodies: Seq<Seq<u8>>, j: int)
    requires
        0 <= j < rs.len(),
        bodies_fit(rs, bodies),
    ensures
        concat_from(rs, bodies, 0).subrange(
            prefix_len(rs, j) as int,
            prefix_len(rs, j) as int + region_len(rs[j]) as int,
        ) == region_bytes(rs[j], bodies),
{
    lemma_concat_from_tail(rs, bodies, j);
    lemma_concat_from_len(rs, bodies, 0);
    lemma_concat_from_len(rs, bodies, j);
    lemma_prefix_suffix(rs, j);
    assert(region_bytes(rs[j], bodies).len() == region_len(rs[j])) by {
        if !region_is_body(rs[j]) {
        }
    }
    assert(concat_from(rs, bodies, 0).subrange(
        prefix_len(rs, j) as int,
        prefix_len(rs, j) as int + region_len(rs[j]) as int,
    ) =~= region_bytes(rs[j], bodies));
}

} // verus!

verus! {

// ---------------------------------------------------------------------------
// The layout.
// ---------------------------------------------------------------------------

/// The precomputed byte plan of one archive: the members, the partition of
/// `[0, total_len)` into regions with materialized constant blocks, the
/// central-directory bounds, and the entity tag. Immutable once built.
pub struct Layout {
    pub members: Vec<Member>,
    pub regions: Vec<Region>,
    pub cd_offset: u64,
    pub cd_size: u64,
    pub total_len: u64,
    pub filename: String,
    pub etag: String,
}

/// Every body region points at a member of exactly its declared size.
pub open spec fn bodies_indexed(rs: Seq<Region>, ms: Seq<Member>) -> bool {
    forall|j: int|
        0 <= j < rs.len() && region_is_body(#[trigger] rs[j]) ==> {
            &&& 0 <= region_member_index(rs[j]) < ms.len()
            &&& region_len(rs[j]) == ms[region_member_index(rs[j])].size as nat
        }
}

/// Local headers and bodies of members `0..upto` stand at regions `2k` and
/// `2k + 1`, with the right offsets and the right constant blocks.
pub open spec fn headers_match(rs: Seq<Region>, ms: Seq<Member>, upto: int) -> bool {
    forall|k: int|
        0 <= k < upto ==> {
            &&& !region_is_body(#[trigger] rs[2 * k])
            &&& region_const_bytes(rs[2 * k]) == local_header_bytes(ms[k])
            &&& region_offset(rs[2 * k]) as nat == header_offset_spec(ms, k)
            &&& region_is_body(rs[2 * k + 1])
            &&& region_member_index(rs[2 * k + 1]) == k
            &&& region_len(rs[2 * k + 1]) == ms[k].size as nat
            &&& region_offset(rs[2 * k + 1]) as nat == header_offset_spec(ms, k)
                + local_header_len(ms[k])
        }
}

/// Central-directory entries of members `0..upto` stand after the bodies,
/// in member order.
pub open spec fn centrals_match(rs: Seq<Region>, ms: Seq<Member>, upto: int) -> bool {
    forall|k: int|
        0 <= k < upto ==> {
            let c = #[trigger] rs[2 * (ms.len() as int) + k];
            &&& !region_is_body(c)
            &&& region_const_bytes(c) == central_entry_bytes(
                ms[k],
                header_offset_spec(ms, k) as u64,
            )
            &&& region_offset(c) as nat == cd_offset_spec(ms) + cd_size_upto(ms, k)
        }
}

/// The layout is the byte-exact plan of the manifest: headers and bodies in
/// manifest order, then the central directory, then the end region.
pub open spec fn layout_matches(l: Layout, filename: Seq<char>, ms: Seq<Member>) -> bool {
    let n = ms.len() as int;
    &&& l.members@ == ms
    &&& l.filename@ == filename
    &&& l.etag@ == crate::etag::etag_spec(filename, ms)
    &&& l.regions@.len() == 3 * n + 1
    &&& headers_match(l.regions@, ms, n)
    &&& centrals_match(l.regions@, ms, n)
    &&& !region_is_body(l.regions@[3 * n])
    &&& region_const_bytes(l.regions@[3 * n]) == end_bytes(
        ms.len(),
        cd_offset_spec(ms) as u64,
        cd_size_spec(ms) as u64,
        needs_zip64_end(ms),
    )
    &&& region_offset(l.regions@[3 * n]) as nat == cd_offset_spec(ms) + cd_size_spec(ms)
    &&& l.cd_offset as nat == cd_offset_spec(ms)
    &&& l.cd_size as nat == cd_size_spec(ms)
    &&& l.total_len as nat == total_len_spec(ms)
}

impl Layout {
    /// The regions partition `[0, total_len)` exactly, and every body
    /// region is backed by a member.
    pub open spec fn wf(self) -> bool {
        &&& regions_contiguous(self.regions@)
        &&& self.total_len as nat == prefix_len(self.regions@, self.regions@.len() as int)
        &&& bodies_indexed(self.regions@, self.members@)
    }

    /// A body assignment for the whole manifest: one byte string per
    /// member, each of the declared size.
    pub open spec fn wf_bodies(self, bodies: Seq<Seq<u8>>) -> bool {
        &&& bodies.len() == self.members@.len()
        &&& forall|i: int|
            0 <= i < bodies.len() ==> (#[trigger] bodies[i]).len() == self.members@[i].size as nat
    }

    /// The whole archive, given body bytes for every member.
    pub open spec fn archive_bytes(self, bodies: Seq<Seq<u8>>) -> Seq<u8> {
        concat_from(self.regions@, bodies, 0)
    }
}

pub proof fn lemma_wf_bodies_fit(l: Layout, bodies: Seq<Seq<u8>>)
    requires
        l.wf(),
        l.wf_bodies(bodies),
    ensures
        bodies_fit(l.regions@, bodies),
{
}

/// Layout totality: the archive is exactly `total_len` bytes long, for
/// every assignment of member bodies of the declared sizes.
pub proof fn lemma_layout_totality(l: Layout, bodies: Seq<Seq<u8>>)
    requires
        l.wf(),
        l.wf_bodies(bodies),
    ensures
        l.archive_bytes(bodies).len() == l.total_len,
{
    lemma_wf_bodies_fit(l, bodies);
    lemma_concat_from_len(l.regions@, bodies, 0);
    lemma_prefix_suffix(l.regions@, l.regions@.len() as int);
}

pub proof fn lemma_header_offset_mono(ms: Seq<Member>, i: int, j: int)
    requires
        0 <= i <= j,
    ensures
        header_offset_spec(ms, i) <= header_offset_spec(ms, j),
    decreases j,
{
    if j > i {
        lemma_header_offset_mono(ms, i, j - 1);
    }
}

pub proof fn lemma_cd_size_mono(ms: Seq<Member>, i: int, j: int)
    requires
        0 <= i <= j,
    ensures
        cd_size_upto(ms, i) <= cd_size_upto(ms, j),
    decreases j,
{
    if j > i {
        lemma_cd_size_mono(ms, i, j - 1);
    }
}

pub proof fn lemma_local_header_bytes_len(m: Member)
    ensures
        local_header_bytes(m).len() == local_header_len(m),
{
    if needs_zip64(m.size as nat) {
        assert(local_extra_bytes(m.size).len() == 20);
    } else {
        assert(local_extra_bytes(m.size).len() == 0);
    }
}

pub proof fn lemma_central_entry_bytes_len(m: Member, header_offset: u64)
    ensures
        central_entry_bytes(m, header_offset).len() == central_entry_len(
            m,
            header_offset as nat,
        ),
{
    let c = central_extra_count(m.size, header_offset as nat);
    if c > 0 {
        assert(central_extra_bytes(m.size, header_offset).len() == 4 + 8 * c);
    } else {
        assert(central_extra_bytes(m.size, header_offset).len() == 0);
    }
}

pub proof fn lemma_end_bytes_len(count: nat, cd_offset: u64, cd_size: u64, zip64: bool)
    ensures
        end_bytes(count, cd_offset, cd_size, zip64).len() == 22 + if zip64 {
            76nat
        } else {
            0nat
        },
{
}

/// Whether a member name can be carried in the archive.
#[verifier::loop_isolation(false)]
pub fn check_name(name: &Vec<u8>) -> (r: bool)
    ensures
        r == valid_name(name@),
{
    if name.len() == 0 || name.len() > 0xFFFF {
        return false;
    }
    if name[0] == 47 {
        return false;
    }
    let mut i: usize = 0;
    while i < name.len()
        invariant
            i <= name@.len(),
            forall|k: int| 0 <= k < i ==> name@[k] != 0,
        decreases name@.len() - i,
    {
        if name[i] == 0 {
            return false;
        }
        i = i + 1;
    }
    true
}

impl Layout {
    /// Plan the whole archive from a manifest: offsets, constant blocks,
    /// total length and entity tag, without reading any member body.
    ///
    /// Succeeds exactly on the buildable manifests: at least one member,
    /// every name usable, and the total length within 64 bits; otherwise
    /// the owed error is returned.
    #[verifier::loop_isolation(false)]
    #[verifier::rlimit(100)]
    pub fn build(manifest: Manifest) -> (r: Result<Layout, LayoutError>)
        ensures
            match r {
                Result::Ok(l) => {
                    &&& buildable(manifest.members@)
                    &&& l.wf()
                    &&& layout_matches(l, manifest.filename@, manifest.members@)
                },
                Result::Err(e) => {
                    &&& !buildable(manifest.members@)
                    &&& e == expected_error(manifest.members@)
                },
            },
    {
        let ghost ms = manifest.members@;
        let n = manifest.members.len();
        if n == 0 {
            return Result::Err(LayoutError::EmptyManifest);
        }
        let mut i: usize = 0;
        while i < n
            invariant
                i <= n,
                forall|k: int| 0 <= k < i ==> valid_name(#[trigger] ms[k].name@),
            decreases n - i,
        {
            if !check_name(&manifest.members[i].name) {
                proof {
                    assert(!all_names_valid(ms));
                }
                return Result::Err(LayoutError::InvalidName);
            }
            i = i + 1;
        }
        proof {
            assert(all_names_valid(ms));
        }
        let etag = crate::etag::compute_etag(&manifest);
        let Manifest { filename, members } = manifest;
        let mut regions: Vec<Region> = Vec::new();
        let mut header_offsets: Vec<u64> = Vec::new();
        let mut acc: u64 = 0;
        let mut i: usize = 0;
        while i < n
            invariant
                i <= n,
                regions@.len() == 2 * i,
                header_offsets@.len() == i,
                forall|k: int|
                    0 <= k < i ==> header_offsets@[k] as nat == header_offset_spec(ms, k),
                acc as nat == header_offset_spec(ms, i as int),
                regions_contiguous(regions@),
                prefix_len(regions@, regions@.len() as int) == acc as nat,
                headers_match(regions@, ms, i as int),
                bodies_indexed(regions@, ms),
            decreases n - i,
        {
            let m = &members[i];
            let hdr = build_local_header(m);
            proof {
                lemma_local_header_bytes_len(ms[i as int]);
            }
            let hlen: u64 = hdr.len() as u64;
            let body_off = match acc.checked_add(hlen) {
                Option::Some(v) => v,
                Option::None => {
                    proof {
                        lemma_header_offset_mono(ms, i + 1, n as int);
                    }
                    return Result::Err(LayoutError::LayoutTooLarge);
                },
            };
            let next = match body_off.checked_add(m.size) {
                Option::Some(v) => v,
                Option::None => {
                    proof {
                        lemma_header_offset_mono(ms, i + 1, n as int);
                    }
                    return Result::Err(LayoutError::LayoutTooLarge);
                },
            };
            let ghost rs0 = regions@;
            let ghost hb = hdr@;
            regions.push(Region::Const { offset: acc, bytes: hdr });
            proof {
                assert(regions@ == rs0.push(regions@[rs0.len() as int]));
                lemma_push_region(rs0, regions@[rs0.len() as int]);
            }
            let ghost rs1 = regions@;
            regions.push(Region::Body { offset: body_off, member_index: i, size: m.size });
            proof {
                assert(regions@ == rs1.push(regions@[rs1.len() as int]));
                lemma_push_region(rs1, regions@[rs1.len() as int]);
            }
            header_offsets.push(acc);
            acc = next;
            i = i + 1;
        }
        let cd_offset = acc;
        proof {
            assert(cd_offset as nat == cd_offset_spec(ms));
        }
        let mut k: usize = 0;
        while k < n
            invariant
                k <= n,
                regions@.len() == 2 * n + k,
                acc as nat == cd_offset_spec(ms) + cd_size_upto(ms, k as int),
                regions_contiguous(regions@),
                prefix_len(regions@, regions@.len() as int) == acc as nat,
                headers_match(regions@, ms, n as int),
                centrals_match(regions@, ms, k as int),
                bodies_indexed(regions@, ms),
            decreases n - k,
        {
            let m = &members[k];
            let entry = build_central_entry(m, header_offsets[k]);
            proof {
                lemma_central_entry_bytes_len(ms[k as int], header_offsets@[k as int]);
                assert(central_entry_len(ms[k as int], header_offsets@[k as int] as nat)
                    == central_entry_len(ms[k as int], header_offset_spec(ms, k as int)));
            }
            let elen: u64 = entry.len() as u64;
            let next = match acc.checked_add(elen) {
                Option::Some(v) => v,
                Option::None => {
                    proof {
                        lemma_cd_size_mono(ms, k + 1, n as int);
                    }
                    return Result::Err(LayoutError::LayoutTooLarge);
                },
            };
            let ghost rs0 = regions@;
            regions.push(Region::Const { offset: acc, bytes: entry });
            proof {
                assert(regions@ == rs0.push(regions@[rs0.len() as int]));
                lemma_push_region(rs0, regions@[rs0.len() as int]);
                assert(header_offsets@[k as int] as nat == header_offset_spec(ms, k as int));
                assert(header_offsets@[k as int] == header_offset_spec(ms, k as int) as u64);
            }
            acc = next;
            k = k + 1;
        }
        let cd_size = acc - cd_offset;
        proof {
            assert(cd_size as nat == cd_size_spec(ms));
        }
        let zip64 = cd_offset >= ZIP64_LIMIT || cd_size >= ZIP64_LIMIT || n >= ZIP64_COUNT_LIMIT;
        proof {
            assert(zip64 == needs_zip64_end(ms));
        }
        let end_len: u64 = if zip64 {
            98
        } else {
            22
        };
        let total = match acc.checked_add(end_len) {
            Option::Some(v) => v,
            Option::None => {
                return Result::Err(LayoutError::LayoutTooLarge);
            },
        };
        let endv = build_end(n, cd_offset, cd_size, zip64);
        proof {
            lemma_end_bytes_len(n as nat, cd_offset, cd_size, zip64);
        }
        let ghost rs0 = regions@;
        regions.push(Region::Const { offset: acc, bytes: endv });
        proof {
            assert(regions@ == rs0.push(regions@[rs0.len() as int]));
            lemma_push_region(rs0, regions@[rs0.len() as int]);
        }
        let l = Layout { members, regions, cd_offset, cd_size, total_len: total, filename, etag };
        proof {
            assert(l.wf());
            assert(layout_matches(l, manifest.filename@, ms));
        }
        Result::Ok(l)
    }
}

} // verus!

verus! {

pub proof fn lemma_prefix_len_mono(rs: Seq<Region>, i: int, j: int)
    requires
        0 <= i <= j,
    ensures
        prefix_len(rs, i) <= prefix_len(rs, j),
    decreases j,
{
    if j > i {
        lemma_prefix_len_mono(rs, i, j - 1);
    }
}

} // verus!

verus! {

/// Every member of a planned archive appears intact: the archive's bytes
/// at the member's header offset are exactly its local-file-header block,
/// followed immediately by exactly its body.
pub proof fn lemma_member_intact(
    l: Layout,
    filename: Seq<char>,
    ms: Seq<Member>,
    bodies: Seq<Seq<u8>>,
    i: int,
)
    requires
        l.wf(),
        layout_matches(l, filename, ms),
        l.wf_bodies(bodies),
        0 <= i < ms.len(),
    ensures
        l.archive_bytes(bodies).subrange(
            header_offset_spec(ms, i) as int,
            header_offset_spec(ms, i) as int + local_header_len(ms[i]) as int,
        ) == local_header_bytes(ms[i]),
        l.archive_bytes(bodies).subrange(
            header_offset_spec(ms, i) as int + local_header_len(ms[i]) as int,
            header_offset_spec(ms, i) as int + local_header_len(ms[i]) as int + ms[i].size as int,
        ) == bodies[i],
{
    let rs = l.regions@;
    lemma_wf_bodies_fit(l, bodies);
    lemma_local_header_bytes_len(ms[i]);
    assert(region_offset(rs[2 * i]) as nat == prefix_len(rs, 2 * i));
    assert(region_offset(rs[2 * i + 1]) as nat == prefix_len(rs, 2 * i + 1));
    assert(region_len(rs[2 * i]) == local_header_len(ms[i]));
    lemma_region_slice(rs, bodies, 2 * i);
    lemma_region_slice(rs, bodies, 2 * i + 1);
    assert(region_bytes(rs[2 * i], bodies) == local_header_bytes(ms[i]));
    assert(region_bytes(rs[2 * i + 1], bodies) == bodies[i]);
}

} // verus!
