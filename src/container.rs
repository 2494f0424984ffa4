//! The on-disk container: header, fixed-size record arrays, nul-terminated
//! name tables and the aligned trailing resource blob.
use vstd::prelude::*;
use vstd::bytes::{
    spec_u16_from_le_bytes, spec_u16_to_le_bytes, spec_u32_from_le_bytes, spec_u32_to_le_bytes,
    u16_from_le_bytes, u16_to_le_bytes, u32_from_le_bytes, u32_to_le_bytes,
};
use vstd::slice::{slice_subrange, slice_to_vec};
use crate::EffError;
use crate::string::CString;
use crate::flags::{EffectHandleFlags, packed, unpacked};

verus! {

/// The data associated with an effect handle.
#[derive(Debug, Clone, Copy, PartialEq, Eq, Structural)]
pub struct EffectHandle {
    /// Attributes of the effect.
    pub flags: EffectHandleFlags,
    /// Index of the emitter set.
    pub emitter_set_handle: i32,
    /// 1-based index of the model entry, 0 for none.
    pub effect_model_entry_handle: i32,
    /// 1-based index of the first group element, 0 for none.
    pub effect_group_element_start: i16,
    /// Number of group elements.
    pub effect_group_element_count: i16,
}

/// The data associated with an effect group element.
#[derive(Debug, Clone, Copy, PartialEq, Eq, Structural)]
pub struct EffectGroupElement {
    /// Frame on which the emitter set is requested.
    pub emitter_set_start_frame: i16,
    /// Index of the emitter set.
    pub emitter_set_handle: i16,
}

/// The data associated with an effect model entry.
#[derive(Debug, Clone, Copy, PartialEq, Eq, Structural)]
pub struct EffectModelEntry {
    /// A byte of unknown purpose, kept as it is.
    pub unk: i8,
}

/// The container of an EFF file, as it is laid out on disk.
#[derive(Debug, Clone)]
pub struct EffFile {
    /// Effect handles.
    pub effect_handles: Vec<EffectHandle>,
    /// Group elements shared by all handles.
    pub effect_group_elements: Vec<EffectGroupElement>,
    /// Model entries.
    pub effect_model_entries: Vec<EffectModelEntry>,
    /// One name per effect handle.
    pub effect_handle_names: Vec<CString>,
    /// One name per model entry.
    pub effect_model_names: Vec<CString>,
    /// One parent joint name per group element.
    pub parent_joint_names: Vec<CString>,
    /// The trailing resource, if any.
    pub resource_data: Option<Vec<u8>>,
}

/// The mathematical value of an [`EffFile`].
pub struct RawModel {
    pub handles: Seq<EffectHandle>,
    pub group_elements: Seq<EffectGroupElement>,
    pub model_entries: Seq<EffectModelEntry>,
    pub handle_names: Seq<Seq<u8>>,
    pub model_names: Seq<Seq<u8>>,
    pub joint_names: Seq<Seq<u8>>,
    pub resource: Option<Seq<u8>>,
}

impl View for EffFile {
    type V = RawModel;

    open spec fn view(&self) -> RawModel {
        RawModel {
            handles: self.effect_handles@,
            group_elements: self.effect_group_elements@,
            model_entries: self.effect_model_entries@,
            handle_names: self.effect_handle_names@.map_values(|c: CString| c@),
            model_names: self.effect_model_names@.map_values(|c: CString| c@),
            joint_names: self.parent_joint_names@.map_values(|c: CString| c@),
            resource: match self.resource_data {
                Some(v) => Some(v@),
                None => None,
            },
        }
    }
}

/// The granularity of the resource alignment.
pub const RESOURCE_ALIGNMENT_COEFFICIENT: usize = 0x1000;

/// The header's version word.
pub const VERSION: u32 = 0x00020000;

/// The size of the header in bytes.
pub const HEADER_SIZE: usize = 16;

/// The container signature, `EFFN`.
pub open spec fn magic() -> Seq<u8> {
    seq![0x45u8, 0x46u8, 0x46u8, 0x4Eu8]
}

pub open spec fn le16(x: i16) -> Seq<u8> {
    spec_u16_to_le_bytes(x as u16)
}

pub open spec fn le32(x: u32) -> Seq<u8> {
    spec_u32_to_le_bytes(x)
}

/// The little-endian `i16` at `p`.
pub open spec fn rd16(b: Seq<u8>, p: int) -> i16 {
    spec_u16_from_le_bytes(b.subrange(p, p + 2)) as i16
}

/// The little-endian `u32` at `p`.
pub open spec fn rd32(b: Seq<u8>, p: int) -> u32 {
    spec_u32_from_le_bytes(b.subrange(p, p + 4))
}

pub open spec fn handle_bytes(h: EffectHandle) -> Seq<u8> {
    le32(packed(h.flags)) + le32(h.emitter_set_handle as u32) + le32(
        h.effect_model_entry_handle as u32,
    ) + le16(h.effect_group_element_start) + le16(h.effect_group_element_count)
}

pub open spec fn handle_at(b: Seq<u8>, p: int) -> EffectHandle {
    EffectHandle {
        flags: unpacked(rd32(b, p)),
        emitter_set_handle: rd32(b, p + 4) as i32,
        effect_model_entry_handle: rd32(b, p + 8) as i32,
        effect_group_element_start: rd16(b, p + 12),
        effect_group_element_count: rd16(b, p + 14),
    }
}

pub open spec fn group_bytes(g: EffectGroupElement) -> Seq<u8> {
    le16(g.emitter_set_start_frame) + le16(g.emitter_set_handle)
}

pub open spec fn group_at(b: Seq<u8>, p: int) -> EffectGroupElement {
    EffectGroupElement { emitter_set_start_frame: rd16(b, p), emitter_set_handle: rd16(b, p + 2) }
}

pub open spec fn model_entry_at(b: Seq<u8>, p: int) -> EffectModelEntry {
    EffectModelEntry { unk: b[p] as i8 }
}

pub open spec fn handles_bytes(hs: Seq<EffectHandle>) -> Seq<u8>
    decreases hs.len(),
{
    if hs.len() == 0 {
        seq![]
    } else {
        handles_bytes(hs.drop_last()) + handle_bytes(hs.last())
    }
}

pub open spec fn groups_bytes(gs: Seq<EffectGroupElement>) -> Seq<u8>
    decreases gs.len(),
{
    if gs.len() == 0 {
        seq![]
    } else {
        groups_bytes(gs.drop_last()) + group_bytes(gs.last())
    }
}

pub open spec fn model_entries_bytes(ms: Seq<EffectModelEntry>) -> Seq<u8> {
    ms.map_values(|m: EffectModelEntry| m.unk as u8)
}

/// A name table: each name followed by one zero byte.
pub open spec fn names_bytes(ns: Seq<Seq<u8>>) -> Seq<u8>
    decreases ns.len(),
{
    if ns.len() == 0 {
        seq![]
    } else {
        names_bytes(ns.drop_last()) + ns.last() + seq![0u8]
    }
}

/// Everything between the header and the resource padding.
pub open spec fn tables_bytes(m: RawModel) -> Seq<u8> {
    handles_bytes(m.handles) + groups_bytes(m.group_elements) + model_entries_bytes(
        m.model_entries,
    ) + names_bytes(m.handle_names) + names_bytes(m.model_names) + names_bytes(m.joint_names)
}

/// The size of everything that precedes the resource padding.
pub open spec fn pre_resource_size(m: RawModel) -> int {
    HEADER_SIZE + tables_bytes(m).len()
}

/// The smallest number of 0x1000-byte pages that hold `size` bytes.
pub open spec fn pages(size: int) -> int {
    (size + 0xFFF) / 0x1000
}

/// The header's resource alignment factor: -1 without a resource, else the
/// number of pages that hold what precedes it, truncated to 16 bits.
pub open spec fn alignment_factor(m: RawModel) -> i16 {
    match m.resource {
        None => -1i16,
        Some(_) => pages(pre_resource_size(m)) as i16,
    }
}

/// The alignment in bytes that a factor stands for, at least one byte.
pub open spec fn alignment(factor: i16) -> int {
    if factor < 1 {
        1
    } else {
        factor * 0x1000
    }
}

/// The number of bytes from `pos` to the next multiple of the alignment.
pub open spec fn padding(factor: i16, pos: int) -> int {
    (alignment(factor) - pos % alignment(factor)) % alignment(factor)
}

pub open spec fn header_bytes(m: RawModel) -> Seq<u8> {
    magic() + le32(VERSION) + le16(m.handles.len() as i16) + le16(m.model_entries.len() as i16)
        + le16(m.group_elements.len() as i16) + le16(alignment_factor(m))
}

/// The bytes of the container `m`.
pub open spec fn encoded(m: RawModel) -> Seq<u8> {
    header_bytes(m) + tables_bytes(m) + match m.resource {
        None => Seq::<u8>::empty(),
        Some(r) => Seq::new(
            padding(alignment_factor(m), pre_resource_size(m)) as nat,
            |i: int| 0u8,
        ) + r,
    }
}

/// `j` is the position of the terminator of the string that starts at `q`.
pub open spec fn is_terminator(b: Seq<u8>, q: int, j: int) -> bool {
    &&& q <= j < b.len()
    &&& b[j] == 0u8
    &&& forall|k: int| q <= k < j ==> b[k] != 0u8
}

/// The nul-terminated string at `q`, if a terminator follows it.
pub open spec fn cstr_at(b: Seq<u8>, q: int) -> Option<Seq<u8>> {
    if exists|j: int| is_terminator(b, q, j) {
        Some(b.subrange(q, choose|j: int| is_terminator(b, q, j)))
    } else {
        None
    }
}

/// `n` consecutive nul-terminated strings from `p`, and the position after them.
pub open spec fn names_at(b: Seq<u8>, p: int, n: nat) -> Option<(Seq<Seq<u8>>, int)>
    decreases n,
{
    if n == 0 {
        Some((Seq::empty(), p))
    } else {
        match names_at(b, p, (n - 1) as nat) {
            None => None,
            Some((ns, q)) => match cstr_at(b, q) {
                None => None,
                Some(s) => Some((ns.push(s), q + s.len() + 1)),
            },
        }
    }
}

/// What the bytes `b` decode to.
pub open spec fn decoded(b: Seq<u8>) -> Result<RawModel, EffError> {
    if b.len() < 4 {
        Err(EffError::Truncated)
    } else if b.take(4) != magic() {
        Err(EffError::BadMagic)
    } else if b.len() < HEADER_SIZE {
        Err(EffError::Truncated)
    } else {
        let n1 = rd16(b, 8);
        let n2 = rd16(b, 10);
        let n3 = rd16(b, 12);
        let factor = rd16(b, 14);
        if n1 < 0 || n2 < 0 || n3 < 0 {
            Err(EffError::BadCount)
        } else {
            let p_groups = HEADER_SIZE + 16 * n1;
            let p_models = p_groups + 4 * n3;
            let p_names = p_models + n2;
            if b.len() < p_names {
                Err(EffError::Truncated)
            } else {
                match names_at(b, p_names, n1 as nat) {
                    None => Err(EffError::Truncated),
                    Some((hn, q1)) => match names_at(b, q1, n2 as nat) {
                        None => Err(EffError::Truncated),
                        Some((mn, q2)) => match names_at(b, q2, n3 as nat) {
                            None => Err(EffError::Truncated),
                            Some((jn, q3)) => Ok(
                                RawModel {
                                    handles: Seq::new(
                                        n1 as nat,
                                        |i: int| handle_at(b, HEADER_SIZE + 16 * i),
                                    ),
                                    group_elements: Seq::new(
                                        n3 as nat,
                                        |i: int| group_at(b, p_groups + 4 * i),
                                    ),
                                    model_entries: Seq::new(
                                        n2 as nat,
                                        |i: int| model_entry_at(b, p_models + i),
                                    ),
                                    handle_names: hn,
                                    model_names: mn,
                                    joint_names: jn,
                                    resource: if factor == -1 {
                                        None
                                    } else {
                                        let start = q3 + padding(factor, q3);
                                        if start < b.len() {
                                            Some(b.subrange(start, b.len() as int))
                                        } else {
                                            Some(Seq::empty())
                                        }
                                    },
                                },
                            ),
                        },
                    },
                }
            }
        }
    }
}

proof fn lemma_header_len(m: RawModel)
    ensures
        header_bytes(m).len() == HEADER_SIZE,
        encoded(m).len() >= HEADER_SIZE + tables_bytes(m).len(),
{
    vstd::bytes::lemma_auto_spec_u16_to_from_le_bytes();
    vstd::bytes::lemma_auto_spec_u32_to_from_le_bytes();
}


/// No name of the table holds a zero byte.
pub open spec fn names_nul_free(ns: Seq<Seq<u8>>) -> bool {
    forall|i: int| 0 <= i < ns.len() ==> !(#[trigger] ns[i]).contains(0u8)
}

/// A container that the encoder writes faithfully: its counts and its
/// alignment factor fit the header's 16-bit fields, each name table has one
/// name per record, and no name holds the terminator byte.
pub open spec fn is_well_formed(m: RawModel) -> bool {
    &&& m.handles.len() <= 0x7fff
    &&& m.model_entries.len() <= 0x7fff
    &&& m.group_elements.len() <= 0x7fff
    &&& m.handle_names.len() == m.handles.len()
    &&& m.model_names.len() == m.model_entries.len()
    &&& m.joint_names.len() == m.group_elements.len()
    &&& names_nul_free(m.handle_names)
    &&& names_nul_free(m.model_names)
    &&& names_nul_free(m.joint_names)
    &&& m.resource is Some ==> pages(pre_resource_size(m)) <= 0x7fff
}

proof fn lemma_le16(x: i16, pre: Seq<u8>, post: Seq<u8>)
    ensures
        le16(x).len() == 2,
        rd16(pre + le16(x) + post, pre.len() as int) == x,
{
    vstd::bytes::lemma_auto_spec_u16_to_from_le_bytes();
    let b = pre + le16(x) + post;
    assert(b.subrange(pre.len() as int, pre.len() + 2int) =~= le16(x));
    assert((x as u16) as i16 == x) by (bit_vector);
}

proof fn lemma_le32(x: u32, pre: Seq<u8>, post: Seq<u8>)
    ensures
        le32(x).len() == 4,
        rd32(pre + le32(x) + post, pre.len() as int) == x,
{
    vstd::bytes::lemma_auto_spec_u32_to_from_le_bytes();
    let b = pre + le32(x) + post;
    assert(b.subrange(pre.len() as int, pre.len() + 4int) =~= le32(x));
}

proof fn lemma_handle(h: EffectHandle, pre: Seq<u8>, post: Seq<u8>)
    ensures
        handle_bytes(h).len() == 16,
        handle_at(pre + handle_bytes(h) + post, pre.len() as int) == h,
{
    let b = pre + handle_bytes(h) + post;
    let a0 = le32(packed(h.flags));
    let a1 = le32(h.emitter_set_handle as u32);
    let a2 = le32(h.effect_model_entry_handle as u32);
    let a3 = le16(h.effect_group_element_start);
    let a4 = le16(h.effect_group_element_count);
    lemma_le32(packed(h.flags), pre, a1 + a2 + a3 + a4 + post);
    lemma_le32(h.emitter_set_handle as u32, pre + a0, a2 + a3 + a4 + post);
    lemma_le32(h.effect_model_entry_handle as u32, pre + a0 + a1, a3 + a4 + post);
    lemma_le16(h.effect_group_element_start, pre + a0 + a1 + a2, a4 + post);
    lemma_le16(h.effect_group_element_count, pre + a0 + a1 + a2 + a3, post);
    assert(b =~= pre + a0 + (a1 + a2 + a3 + a4 + post));
    assert(b =~= (pre + a0) + a1 + (a2 + a3 + a4 + post));
    assert(b =~= (pre + a0 + a1) + a2 + (a3 + a4 + post));
    assert(b =~= (pre + a0 + a1 + a2) + a3 + (a4 + post));
    assert(b =~= (pre + a0 + a1 + a2 + a3) + a4 + post);
    crate::flags::lemma_unpack_pack(h.flags);
    let e = h.emitter_set_handle;
    let mi = h.effect_model_entry_handle;
    assert((e as u32) as i32 == e) by (bit_vector);
    assert((mi as u32) as i32 == mi) by (bit_vector);
}

proof fn lemma_handles(hs: Seq<EffectHandle>, pre: Seq<u8>, post: Seq<u8>)
    ensures
        handles_bytes(hs).len() == 16 * hs.len(),
        forall|i: int|
            0 <= i < hs.len() ==> handle_at(pre + handles_bytes(hs) + post, pre.len() + 16 * i)
                == #[trigger] hs[i],
    decreases hs.len(),
{
    if hs.len() > 0 {
        let init = hs.drop_last();
        let last = handle_bytes(hs.last());
        lemma_handles(init, pre, last + post);
        lemma_handle(hs.last(), pre + handles_bytes(init), post);
        assert(pre + handles_bytes(hs) + post =~= pre + handles_bytes(init) + (last + post));
        assert(pre + handles_bytes(hs) + post =~= (pre + handles_bytes(init)) + last + post);
        assert forall|i: int| 0 <= i < hs.len() implies handle_at(
            pre + handles_bytes(hs) + post,
            pre.len() + 16 * i,
        ) == #[trigger] hs[i] by {
            if i < hs.len() - 1 {
                assert(init[i] == hs[i]);
            }
        }
    }
}

proof fn lemma_group(g: EffectGroupElement, pre: Seq<u8>, post: Seq<u8>)
    ensures
        group_bytes(g).len() == 4,
        group_at(pre + group_bytes(g) + post, pre.len() as int) == g,
{
    let a0 = le16(g.emitter_set_start_frame);
    let a1 = le16(g.emitter_set_handle);
    lemma_le16(g.emitter_set_start_frame, pre, a1 + post);
    lemma_le16(g.emitter_set_handle, pre + a0, post);
    assert(pre + group_bytes(g) + post =~= pre + a0 + (a1 + post));
    assert(pre + group_bytes(g) + post =~= (pre + a0) + a1 + post);
}

proof fn lemma_groups(gs: Seq<EffectGroupElement>, pre: Seq<u8>, post: Seq<u8>)
    ensures
        groups_bytes(gs).len() == 4 * gs.len(),
        forall|i: int|
            0 <= i < gs.len() ==> group_at(pre + groups_bytes(gs) + post, pre.len() + 4 * i)
                == #[trigger] gs[i],
    decreases gs.len(),
{
    if gs.len() > 0 {
        let init = gs.drop_last();
        let last = group_bytes(gs.last());
        lemma_groups(init, pre, last + post);
        lemma_group(gs.last(), pre + groups_bytes(init), post);
        assert(pre + groups_bytes(gs) + post =~= pre + groups_bytes(init) + (last + post));
        assert(pre + groups_bytes(gs) + post =~= (pre + groups_bytes(init)) + last + post);
        assert forall|i: int| 0 <= i < gs.len() implies group_at(
            pre + groups_bytes(gs) + post,
            pre.len() + 4 * i,
        ) == #[trigger] gs[i] by {
            if i < gs.len() - 1 {
                assert(init[i] == gs[i]);
            }
        }
    }
}

proof fn lemma_model_entries(ms: Seq<EffectModelEntry>, pre: Seq<u8>, post: Seq<u8>)
    ensures
        model_entries_bytes(ms).len() == ms.len(),
        forall|i: int|
            0 <= i < ms.len() ==> model_entry_at(
                pre + model_entries_bytes(ms) + post,
                pre.len() + i,
            ) == #[trigger] ms[i],
{
    assert forall|i: int| 0 <= i < ms.len() implies model_entry_at(
        pre + model_entries_bytes(ms) + post,
        pre.len() + i,
    ) == #[trigger] ms[i] by {
        let u = ms[i].unk;
        assert((u as u8) as i8 == u) by (bit_vector);
        assert((pre + model_entries_bytes(ms) + post)[pre.len() + i] == u as u8);
    }
}

proof fn lemma_names(ns: Seq<Seq<u8>>, pre: Seq<u8>, post: Seq<u8>)
    requires
        names_nul_free(ns),
    ensures
        names_at(pre + names_bytes(ns) + post, pre.len() as int, ns.len()) == Some(
            (ns, pre.len() + names_bytes(ns).len() as int),
        ),
    decreases ns.len(),
{
    if ns.len() > 0 {
        let init = ns.drop_last();
        let last = ns.last();
        let tail = last + seq![0u8] + post;
        assert(names_nul_free(init)) by {
            assert forall|i: int| 0 <= i < init.len() implies !(#[trigger] init[i]).contains(
                0u8,
            ) by {
                assert(init[i] == ns[i]);
            }
        }
        assert(!ns[ns.len() - 1].contains(0u8));
        lemma_names(init, pre, tail);
        let b = pre + names_bytes(ns) + post;
        assert(b =~= pre + names_bytes(init) + tail);
        let q: int = pre.len() + names_bytes(init).len() as int;
        let j: int = q + last.len();
        assert forall|k: int| q <= k < j implies b[k] != 0u8 by {
            assert(b[k] == last[k - q]);
        }
        assert(b[j] == 0u8);
        assert(is_terminator(b, q, j));
        let j2 = choose|j2: int| is_terminator(b, q, j2);
        lemma_terminator_unique(b, q, j, j2);
        assert(b.subrange(q, j) =~= last);
        assert(init.push(last) =~= ns);
    } else {
        assert(ns =~= Seq::<Seq<u8>>::empty());
    }
}

proof fn lemma_small_count(n: nat)
    requires
        n <= 0x7fff,
    ensures
        (n as i16) as int == n,
{
    let u = n as u16;
    assert(u as int == n);
    assert(u <= 0x7fff ==> (u as i16) as int == u as int) by (bit_vector);
    assert((n as i16) == (u as i16));
}

proof fn lemma_encoded_header(m: RawModel)
    requires
        is_well_formed(m),
    ensures
        encoded(m).len() >= HEADER_SIZE,
        encoded(m).take(4) == magic(),
        rd16(encoded(m), 8) == m.handles.len(),
        rd16(encoded(m), 10) == m.model_entries.len(),
        rd16(encoded(m), 12) == m.group_elements.len(),
        rd16(encoded(m), 14) == alignment_factor(m),
        encoded(m) == header_bytes(m) + tables_bytes(m) + encoded(m).subrange(
            pre_resource_size(m),
            encoded(m).len() as int,
        ),
{
    let b = encoded(m);
    let f = alignment_factor(m);
    let n1 = m.handles.len();
    let n2 = m.model_entries.len();
    let n3 = m.group_elements.len();
    let h0 = magic() + le32(VERSION);
    let c1 = le16(n1 as i16);
    let c2 = le16(n2 as i16);
    let c3 = le16(n3 as i16);
    let c4 = le16(f);
    let rest = b.subrange(HEADER_SIZE as int, b.len() as int);
    lemma_header_len(m);
    assert(b =~= header_bytes(m) + rest);
    assert(header_bytes(m) =~= h0 + c1 + c2 + c3 + c4);
    lemma_le16(n1 as i16, h0, c2 + c3 + c4 + rest);
    lemma_le16(n2 as i16, h0 + c1, c3 + c4 + rest);
    lemma_le16(n3 as i16, h0 + c1 + c2, c4 + rest);
    lemma_le16(f, h0 + c1 + c2 + c3, rest);
    assert(b =~= h0 + c1 + (c2 + c3 + c4 + rest));
    assert(b =~= (h0 + c1) + c2 + (c3 + c4 + rest));
    assert(b =~= (h0 + c1 + c2) + c3 + (c4 + rest));
    assert(b =~= (h0 + c1 + c2 + c3) + c4 + rest);
    assert(b.take(4) =~= magic());
    lemma_small_count(n1);
    lemma_small_count(n2);
    lemma_small_count(n3);
    assert(b =~= header_bytes(m) + tables_bytes(m) + b.subrange(
        pre_resource_size(m),
        b.len() as int,
    ));
}

proof fn lemma_table_lens(m: RawModel)
    ensures
        handles_bytes(m.handles).len() == 16 * m.handles.len(),
        groups_bytes(m.group_elements).len() == 4 * m.group_elements.len(),
        model_entries_bytes(m.model_entries).len() == m.model_entries.len(),
        header_bytes(m).len() == HEADER_SIZE,
{
    lemma_handles(m.handles, seq![], seq![]);
    lemma_groups(m.group_elements, seq![], seq![]);
    lemma_model_entries(m.model_entries, seq![], seq![]);
    lemma_header_len(m);
}

proof fn lemma_tables_records(m: RawModel, post: Seq<u8>)
    ensures
        ({
            let b = header_bytes(m) + tables_bytes(m) + post;
            let p_groups = HEADER_SIZE + 16 * m.handles.len();
            let p_models = p_groups + 4 * m.group_elements.len();
            &&& Seq::new(m.handles.len(), |i: int| handle_at(b, HEADER_SIZE + 16 * i)) == m.handles
            &&& Seq::new(m.group_elements.len(), |i: int| group_at(b, p_groups + 4 * i))
                == m.group_elements
            &&& Seq::new(m.model_entries.len(), |i: int| model_entry_at(b, p_models + i))
                == m.model_entries
        }),
{
    let hdr = header_bytes(m);
    let hb = handles_bytes(m.handles);
    let gb = groups_bytes(m.group_elements);
    let mb = model_entries_bytes(m.model_entries);
    let nbs = names_bytes(m.handle_names) + names_bytes(m.model_names) + names_bytes(
        m.joint_names,
    );
    let b = hdr + tables_bytes(m) + post;
    lemma_table_lens(m);
    let p_groups = HEADER_SIZE + 16 * m.handles.len();
    let p_models = p_groups + 4 * m.group_elements.len();
    assert(b =~= hdr + hb + (gb + mb + nbs + post));
    assert(b =~= (hdr + hb) + gb + (mb + nbs + post));
    assert(b =~= (hdr + hb + gb) + mb + (nbs + post));
    lemma_handles(m.handles, hdr, gb + mb + nbs + post);
    lemma_groups(m.group_elements, hdr + hb, mb + nbs + post);
    lemma_model_entries(m.model_entries, hdr + hb + gb, nbs + post);
    assert(Seq::new(m.handles.len(), |i: int| handle_at(b, HEADER_SIZE + 16 * i)) =~= m.handles);
    assert(Seq::new(m.group_elements.len(), |i: int| group_at(b, p_groups + 4 * i))
        =~= m.group_elements);
    assert(Seq::new(m.model_entries.len(), |i: int| model_entry_at(b, p_models + i))
        =~= m.model_entries);
}

proof fn lemma_tables_names(m: RawModel, post: Seq<u8>)
    requires
        is_well_formed(m),
    ensures
        ({
            let b = header_bytes(m) + tables_bytes(m) + post;
            let p_names = HEADER_SIZE + 16 * m.handles.len() + 4 * m.group_elements.len()
                + m.model_entries.len();
            let q1 = p_names + names_bytes(m.handle_names).len();
            let q2 = q1 + names_bytes(m.model_names).len();
            &&& b.len() >= p_names
            &&& names_at(b, p_names, m.handles.len()) == Some((m.handle_names, q1))
            &&& names_at(b, q1, m.model_entries.len()) == Some((m.model_names, q2))
            &&& names_at(b, q2, m.group_elements.len()) == Some(
                (m.joint_names, pre_resource_size(m)),
            )
        }),
{
    let hdr = header_bytes(m);
    let recs = handles_bytes(m.handles) + groups_bytes(m.group_elements) + model_entries_bytes(
        m.model_entries,
    );
    let nb1 = names_bytes(m.handle_names);
    let nb2 = names_bytes(m.model_names);
    let nb3 = names_bytes(m.joint_names);
    let b = hdr + tables_bytes(m) + post;
    lemma_table_lens(m);
    assert(b =~= (hdr + recs) + nb1 + (nb2 + nb3 + post));
    assert(b =~= (hdr + recs + nb1) + nb2 + (nb3 + post));
    assert(b =~= (hdr + recs + nb1 + nb2) + nb3 + post);
    lemma_names(m.handle_names, hdr + recs, nb2 + nb3 + post);
    lemma_names(m.model_names, hdr + recs + nb1, nb3 + post);
    lemma_names(m.joint_names, hdr + recs + nb1 + nb2, post);
}

proof fn lemma_encoded_resource(m: RawModel)
    requires
        is_well_formed(m),
        m.resource is Some,
    ensures
        1 <= alignment_factor(m) <= 0x7fff,
        alignment_factor(m) == pages(pre_resource_size(m)),
        ({
            let b = encoded(m);
            let start = pre_resource_size(m) + padding(
                alignment_factor(m),
                pre_resource_size(m),
            );
            &&& start <= b.len()
            &&& b.subrange(start, b.len() as int) == m.resource->Some_0
        }),
{
    let s = pre_resource_size(m);
    let p = pages(s);
    assert(1 <= p);
    let u = p as u16;
    assert(u as int == p);
    assert(u <= 0x7fff ==> (u as i16) as int == u as int) by (bit_vector);
    assert((p as i16) == (u as i16));
    let b = encoded(m);
    let r = m.resource->Some_0;
    let pad = padding(alignment_factor(m), s);
    lemma_header_len(m);
    let z = Seq::new(pad as nat, |i: int| 0u8);
    assert(b =~= (header_bytes(m) + tables_bytes(m) + z) + r);
    assert(b.subrange(s + pad, b.len() as int) =~= r);
}

/// Decoding what the encoder wrote gives back the container it was given.
#[verifier::spinoff_prover]
pub proof fn lemma_decode_encode(m: RawModel)
    requires
        is_well_formed(m),
    ensures
        decoded(encoded(m)) == Ok::<RawModel, EffError>(m),
{
    let b = encoded(m);
    lemma_encoded_header(m);
    let post = b.subrange(pre_resource_size(m), b.len() as int);
    lemma_tables_records(m, post);
    lemma_tables_names(m, post);
    if m.resource is Some {
        lemma_encoded_resource(m);
    }
    let d = decoded(b)->Ok_0;
    assert(decoded(b) is Ok);
    assert(d.resource == m.resource);
    assert(d == m);
}

/// A buffer that the encoder wrote decodes to a container that the encoder
/// turns back into the very same bytes, padding and alignment factor included.
pub proof fn lemma_encoded_bytes_round_trip(m: RawModel)
    requires
        is_well_formed(m),
    ensures
        decoded(encoded(m)) is Ok,
        encoded(decoded(encoded(m))->Ok_0) == encoded(m),
{
    lemma_decode_encode(m);
}

/// With a resource, the header's alignment factor is the number of
/// 0x1000-byte pages that hold everything before the resource (rounded up),
/// and the resource starts at `factor * 0x1000`.
pub proof fn lemma_resource_alignment(m: RawModel)
    requires
        is_well_formed(m),
        m.resource is Some,
    ensures
        rd16(encoded(m), 14) == pages(pre_resource_size(m)),
        (pages(pre_resource_size(m)) - 1) * 0x1000 < pre_resource_size(m) <= pages(
            pre_resource_size(m),
        ) * 0x1000,
        pages(pre_resource_size(m)) * 0x1000 <= encoded(m).len(),
        encoded(m).subrange(pages(pre_resource_size(m)) * 0x1000, encoded(m).len() as int)
            == m.resource->Some_0,
{
    lemma_encoded_header(m);
    lemma_encoded_resource(m);
    let s = pre_resource_size(m);
    let f = pages(s);
    lemma_header_len(m);
    assert(s >= 16);
    assert((f - 1) * 0x1000 < s <= f * 0x1000) by (nonlinear_arith)
        requires
            f == (s + 0xFFF) / 0x1000,
            s >= 16,
    ;
    let af = alignment_factor(m);
    let a = alignment(af);
    assert(a == f * 0x1000);
    if s == a {
        assert(s % a == 0 && a % a == 0) by (nonlinear_arith)
            requires
                s == a,
                a > 0,
        ;
    } else {
        vstd::arithmetic::div_mod::lemma_small_mod(s as nat, a as nat);
        vstd::arithmetic::div_mod::lemma_small_mod((a - s) as nat, a as nat);
    }
    assert(s + padding(af, s) == f * 0x1000);
}

/// Without a resource, the header's alignment factor is -1 and nothing, no
/// padding either, follows the name tables.
pub proof fn lemma_no_resource(m: RawModel)
    requires
        is_well_formed(m),
        m.resource is None,
    ensures
        rd16(encoded(m), 14) == -1,
        encoded(m).len() == pre_resource_size(m),
{
    lemma_encoded_header(m);
    lemma_header_len(m);
}

/// Four leading bytes other than the signature are rejected as such, with
/// no container.
pub proof fn lemma_bad_magic(b: Seq<u8>)
    requires
        b.len() >= 4,
        b.take(4) != magic(),
    ensures
        decoded(b) == Err::<RawModel, EffError>(EffError::BadMagic),
{
}

fn read_i16(b: &[u8], p: usize) -> (r: i16)
    requires
        p + 2 <= b@.len(),
    ensures
        r == rd16(b@, p as int),
{
    let len = b.len();
    let end: usize = p + 2;
    assert(end <= len);
    #[verifier::truncate]
    (u16_from_le_bytes(slice_subrange(b, p, end)) as i16)
}

fn read_u32(b: &[u8], p: usize) -> (r: u32)
    requires
        p + 4 <= b@.len(),
    ensures
        r == rd32(b@, p as int),
{
    let len = b.len();
    let end: usize = p + 4;
    assert(end <= len);
    u32_from_le_bytes(slice_subrange(b, p, end))
}

fn push_bytes(out: &mut Vec<u8>, mut v: Vec<u8>)
    ensures
        final(out)@ == old(out)@ + v@,
{
    out.append(&mut v);
}

fn push_i16(out: &mut Vec<u8>, x: i16)
    ensures
        final(out)@ == old(out)@ + le16(x),
{
    push_bytes(out, u16_to_le_bytes(#[verifier::truncate] (x as u16)));
}

fn push_u32(out: &mut Vec<u8>, x: u32)
    ensures
        final(out)@ == old(out)@ + le32(x),
{
    push_bytes(out, u32_to_le_bytes(x));
}

proof fn lemma_terminator_unique(b: Seq<u8>, q: int, j1: int, j2: int)
    requires
        is_terminator(b, q, j1),
        is_terminator(b, q, j2),
    ensures
        j1 == j2,
{
    if j1 < j2 {
        assert(b[j1] != 0u8);
    } else if j2 < j1 {
        assert(b[j2] != 0u8);
    }
}

/// Reads the nul-terminated string at `q`; gives it and the position after
/// its terminator.
fn read_cstr(b: &[u8], q: usize) -> (r: Option<(CString, usize)>)
    requires
        q <= b@.len(),
    ensures
        match cstr_at(b@, q as int) {
            None => r is None,
            Some(s) => r matches Some((c, next)) && c@ == s && next == q + s.len() + 1,
        },
        r matches Some((_, next)) ==> next <= b@.len(),
{
    let mut j: usize = q;
    while j < b.len() && b[j] != 0u8
        invariant
            q <= j <= b@.len(),
            forall|k: int| q <= k < j ==> b@[k] != 0u8,
        decreases b@.len() - j,
    {
        j = j + 1;
    }
    if j == b.len() {
        assert forall|j2: int| !is_terminator(b@, q as int, j2) by {
            if is_terminator(b@, q as int, j2) {
                assert(b@[j2] != 0u8);
            }
        }
        None
    } else {
        assert(is_terminator(b@, q as int, j as int));
        proof {
            let j2 = choose|j2: int| is_terminator(b@, q as int, j2);
            lemma_terminator_unique(b@, q as int, j as int, j2);
        }
        let s = CString::from_vec(slice_to_vec(slice_subrange(b, q, j)));
        Some((s, j + 1))
    }
}

proof fn lemma_names_at_none(b: Seq<u8>, p: int, k: nat, n: nat)
    requires
        k <= n,
        names_at(b, p, k) is None,
    ensures
        names_at(b, p, n) is None,
    decreases n - k,
{
    if k < n {
        lemma_names_at_none(b, p, k, (n - 1) as nat);
    }
}

/// Reads `n` consecutive nul-terminated strings from `p`.
fn read_names(b: &[u8], p: usize, n: usize) -> (r: Option<(Vec<CString>, usize)>)
    requires
        p <= b@.len(),
    ensures
        match names_at(b@, p as int, n as nat) {
            None => r is None,
            Some((ns, q)) => r matches Some((v, next)) && v@.map_values(|c: CString| c@) == ns
                && next == q,
        },
        r matches Some((_, next)) ==> next <= b@.len(),
{
    let mut names: Vec<CString> = Vec::new();
    let mut pos: usize = p;
    let mut i: usize = 0;
    while i < n
        invariant
            i <= n,
            pos <= b@.len(),
            names_at(b@, p as int, i as nat) == Some(
                (names@.map_values(|c: CString| c@), pos as int),
            ),
        decreases n - i,
    {
        match read_cstr(b, pos) {
            None => {
                proof {
                    lemma_names_at_none(b@, p as int, (i + 1) as nat, n as nat);
                }
                return None;
            },
            Some((s, next)) => {
                let ghost sv = s@;
                names.push(s);
                pos = next;
                i = i + 1;
                let ghost pair = names_at(b@, p as int, (i - 1) as nat)->0;
                assert(names@.map_values(|c: CString| c@) =~= pair.0.push(sv));
            },
        }
    }
    Some((names, pos))
}


fn read_handle(b: &[u8], p: usize) -> (r: EffectHandle)
    requires
        p + 16 <= b@.len(),
    ensures
        r == handle_at(b@, p as int),
{
    let len = b.len();
    assert(p + 16 <= len);
    EffectHandle {
        flags: EffectHandleFlags::from_bits(read_u32(b, p)),
        emitter_set_handle: #[verifier::truncate] (read_u32(b, p + 4) as i32),
        effect_model_entry_handle: #[verifier::truncate] (read_u32(b, p + 8) as i32),
        effect_group_element_start: read_i16(b, p + 12),
        effect_group_element_count: read_i16(b, p + 14),
    }
}

fn write_handles(out: &mut Vec<u8>, hs: &Vec<EffectHandle>)
    ensures
        final(out)@ == old(out)@ + handles_bytes(hs@),
{
    let ghost start = out@;
    let mut i: usize = 0;
    while i < hs.len()
        invariant
            i <= hs@.len(),
            out@ == start + handles_bytes(hs@.take(i as int)),
        decreases hs@.len() - i,
    {
        let h = hs[i];
        push_u32(out, h.flags.into_bits());
        push_u32(out, #[verifier::truncate] (h.emitter_set_handle as u32));
        push_u32(out, #[verifier::truncate] (h.effect_model_entry_handle as u32));
        push_i16(out, h.effect_group_element_start);
        push_i16(out, h.effect_group_element_count);
        assert(hs@.take(i + 1).drop_last() =~= hs@.take(i as int));
        i = i + 1;
        assert(out@ =~= start + handles_bytes(hs@.take(i as int)));
    }
    assert(hs@.take(i as int) =~= hs@);
}

fn write_groups(out: &mut Vec<u8>, gs: &Vec<EffectGroupElement>)
    ensures
        final(out)@ == old(out)@ + groups_bytes(gs@),
{
    let ghost start = out@;
    let mut i: usize = 0;
    while i < gs.len()
        invariant
            i <= gs@.len(),
            out@ == start + groups_bytes(gs@.take(i as int)),
        decreases gs@.len() - i,
    {
        let g = gs[i];
        push_i16(out, g.emitter_set_start_frame);
        push_i16(out, g.emitter_set_handle);
        assert(gs@.take(i + 1).drop_last() =~= gs@.take(i as int));
        i = i + 1;
        assert(out@ =~= start + groups_bytes(gs@.take(i as int)));
    }
    assert(gs@.take(i as int) =~= gs@);
}

fn write_model_entries(out: &mut Vec<u8>, ms: &Vec<EffectModelEntry>)
    ensures
        final(out)@ == old(out)@ + model_entries_bytes(ms@),
{
    let ghost start = out@;
    let mut i: usize = 0;
    while i < ms.len()
        invariant
            i <= ms@.len(),
            out@ == start + model_entries_bytes(ms@.take(i as int)),
        decreases ms@.len() - i,
    {
        out.push(#[verifier::truncate] (ms[i].unk as u8));
        i = i + 1;
        assert(out@ =~= start + model_entries_bytes(ms@.take(i as int)));
    }
    assert(ms@.take(i as int) =~= ms@);
}

fn write_names(out: &mut Vec<u8>, ns: &Vec<CString>)
    ensures
        final(out)@ == old(out)@ + names_bytes(ns@.map_values(|c: CString| c@)),
{
    let ghost start = out@;
    let ghost all = ns@.map_values(|c: CString| c@);
    let mut i: usize = 0;
    while i < ns.len()
        invariant
            i <= ns@.len(),
            all == ns@.map_values(|c: CString| c@),
            out@ == start + names_bytes(all.take(i as int)),
        decreases ns@.len() - i,
    {
        push_bytes(out, slice_to_vec(ns[i].as_bytes()));
        out.push(0u8);
        assert(all.take(i + 1).drop_last() =~= all.take(i as int));
        i = i + 1;
        assert(out@ =~= start + names_bytes(all.take(i as int)));
    }
    assert(all.take(i as int) =~= all);
}

impl EffFile {
    /// Decodes a container from its bytes.
    pub fn read(b: &[u8]) -> (r: Result<EffFile, EffError>)
        ensures
            match decoded(b@) {
                Ok(m) => r matches Ok(f) && f@ == m,
                Err(e) => r == Err::<EffFile, EffError>(e),
            },
    {
        let n = b.len();
        if n < 4 {
            return Err(EffError::Truncated);
        }
        if b[0] != 0x45u8 || b[1] != 0x46u8 || b[2] != 0x46u8 || b[3] != 0x4Eu8 {
            assert(b@.take(4)[0] == b@[0] && b@.take(4)[1] == b@[1] && b@.take(4)[2] == b@[2]
                && b@.take(4)[3] == b@[3]);
            return Err(EffError::BadMagic);
        }
        assert(b@.take(4) =~= magic());
        if n < HEADER_SIZE {
            return Err(EffError::Truncated);
        }
        let n1 = read_i16(b, 8);
        let n2 = read_i16(b, 10);
        let n3 = read_i16(b, 12);
        let factor = read_i16(b, 14);
        if n1 < 0 || n2 < 0 || n3 < 0 {
            return Err(EffError::BadCount);
        }
        let n1u = n1 as usize;
        let n2u = n2 as usize;
        let n3u = n3 as usize;
        let p_groups: usize = HEADER_SIZE + 16 * n1u;
        let p_models: usize = p_groups + 4 * n3u;
        let p_names: usize = p_models + n2u;
        if n < p_names {
            return Err(EffError::Truncated);
        }
        let mut handles: Vec<EffectHandle> = Vec::new();
        let mut i: usize = 0;
        while i < n1u
            invariant
                i <= n1u,
                n == b@.len(),
                p_groups == HEADER_SIZE + 16 * n1u,
                p_groups <= n,
                handles@ == Seq::new(i as nat, |k: int| handle_at(b@, HEADER_SIZE + 16 * k)),
            decreases n1u - i,
        {
            handles.push(read_handle(b, HEADER_SIZE + 16 * i));
            i = i + 1;
            assert(handles@ =~= Seq::new(i as nat, |k: int| handle_at(b@, HEADER_SIZE + 16 * k)));
        }
        let mut groups: Vec<EffectGroupElement> = Vec::new();
        let mut i: usize = 0;
        while i < n3u
            invariant
                i <= n3u,
                n == b@.len(),
                p_models == p_groups + 4 * n3u,
                p_models <= n,
                groups@ == Seq::new(i as nat, |k: int| group_at(b@, p_groups + 4 * k)),
            decreases n3u - i,
        {
            let p = p_groups + 4 * i;
            groups.push(
                EffectGroupElement {
                    emitter_set_start_frame: read_i16(b, p),
                    emitter_set_handle: read_i16(b, p + 2),
                },
            );
            i = i + 1;
            assert(groups@ =~= Seq::new(i as nat, |k: int| group_at(b@, p_groups + 4 * k)));
        }
        let mut models: Vec<EffectModelEntry> = Vec::new();
        let mut i: usize = 0;
        while i < n2u
            invariant
                i <= n2u,
                n == b@.len(),
                p_names == p_models + n2u,
                p_names <= n,
                models@ == Seq::new(i as nat, |k: int| model_entry_at(b@, p_models + k)),
            decreases n2u - i,
        {
            models.push(EffectModelEntry { unk: #[verifier::truncate] (b[p_models + i] as i8) });
            i = i + 1;
            assert(models@ =~= Seq::new(i as nat, |k: int| model_entry_at(b@, p_models + k)));
        }
        let (handle_names, q1) = match read_names(b, p_names, n1u) {
            None => return Err(EffError::Truncated),
            Some(x) => x,
        };
        let (model_names, q2) = match read_names(b, q1, n2u) {
            None => return Err(EffError::Truncated),
            Some(x) => x,
        };
        let (joint_names, q3) = match read_names(b, q2, n3u) {
            None => return Err(EffError::Truncated),
            Some(x) => x,
        };
        let resource_data = if factor == -1 {
            None
        } else {
            let align: usize = if factor < 1 {
                1
            } else {
                factor as usize * RESOURCE_ALIGNMENT_COEFFICIENT
            };
            let pad: usize = (align - q3 % align) % align;
            if pad < n - q3 {
                Some(slice_to_vec(slice_subrange(b, q3 + pad, n)))
            } else {
                Some(Vec::new())
            }
        };
        let f = EffFile {
            effect_handles: handles,
            effect_group_elements: groups,
            effect_model_entries: models,
            effect_handle_names: handle_names,
            effect_model_names: model_names,
            parent_joint_names: joint_names,
            resource_data,
        };
        assert(f@ =~= decoded(b@)->Ok_0);
        Ok(f)
    }

    /// Encodes the container; the header counts come from the table lengths
    /// and the alignment factor from the size of what precedes the resource.
    pub fn write(&self) -> (r: Vec<u8>)
        requires
            encoded(self@).len() <= usize::MAX,
        ensures
            r@ == encoded(self@),
    {
        let mut body: Vec<u8> = Vec::new();
        write_handles(&mut body, &self.effect_handles);
        write_groups(&mut body, &self.effect_group_elements);
        write_model_entries(&mut body, &self.effect_model_entries);
        write_names(&mut body, &self.effect_handle_names);
        write_names(&mut body, &self.effect_model_names);
        write_names(&mut body, &self.parent_joint_names);
        assert(body@ =~= tables_bytes(self@));
        proof {
            lemma_header_len(self@);
        }
        let size: usize = HEADER_SIZE + body.len();
        let factor = self.calculate_resource_alignment_factor(size);
        let mut out: Vec<u8> = Vec::new();
        out.push(0x45u8);
        out.push(0x46u8);
        out.push(0x46u8);
        out.push(0x4Eu8);
        push_u32(&mut out, VERSION);
        push_i16(&mut out, #[verifier::truncate] (self.effect_handles.len() as i16));
        push_i16(&mut out, #[verifier::truncate] (self.effect_model_entries.len() as i16));
        push_i16(&mut out, #[verifier::truncate] (self.effect_group_elements.len() as i16));
        push_i16(&mut out, factor);
        assert(out@ =~= header_bytes(self@));
        push_bytes(&mut out, body);
        match &self.resource_data {
            None => {
                assert(out@ =~= encoded(self@));
            },
            Some(res) => {
                let align = Self::calculate_resource_alignment(factor);
                let pad: usize = (align - size % align) % align;
                let ghost before = out@;
                let mut i: usize = 0;
                while i < pad
                    invariant
                        i <= pad,
                        out@ == before + Seq::new(i as nat, |k: int| 0u8),
                    decreases pad - i,
                {
                    out.push(0u8);
                    i = i + 1;
                    assert(out@ =~= before + Seq::new(i as nat, |k: int| 0u8));
                }
                push_bytes(&mut out, slice_to_vec(res.as_slice()));
                assert(out@ =~= encoded(self@));
            },
        }
        out
    }

    /// The header's alignment factor for a container whose resource would
    /// start at `size` before padding.
    fn calculate_resource_alignment_factor(&self, size: usize) -> (r: i16)
        requires
            size == pre_resource_size(self@),
        ensures
            r == alignment_factor(self@),
    {
        match &self.resource_data {
            None => -1,
            Some(_) => {
                let p: usize = size / RESOURCE_ALIGNMENT_COEFFICIENT + if size
                    % RESOURCE_ALIGNMENT_COEFFICIENT != 0 {
                    1
                } else {
                    0
                };
                assert(p == pages(size as int));
                #[verifier::truncate]
                (p as i16)
            },
        }
    }

    /// The alignment in bytes that a factor stands for.
    fn calculate_resource_alignment(factor: i16) -> (r: usize)
        ensures
            r == alignment(factor),
            r >= 1,
    {
        if factor < 1 {
            1
        } else {
            factor as usize * RESOURCE_ALIGNMENT_COEFFICIENT
        }
    }
}

} // verus!
