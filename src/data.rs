//! The name-based projection of a container, and the mapping both ways.
//!
//! Handles refer to their model by name and hold their group elements
//! inline; the container refers to both by index.
use vstd::prelude::*;
use vstd::utf8::{decode_utf8, encode_utf8, valid_utf8};
use crate::EffError;
use crate::string::CString;
use crate::flags::{EffectHandleDataFlags, EffectHandleFlags, from_data_flags, to_data_flags};
use crate::container::{
    EffFile, EffectGroupElement, EffectHandle, EffectModelEntry, RawModel, decoded, encoded,
    is_well_formed, lemma_decode_encode, pages, pre_resource_size,
};
use crate::string::lemma_encode_utf8_nul_free;

verus! {

/// A container's contents with names in place of indices.
#[derive(Debug, Clone, PartialEq)]
pub struct EffData {
    /// Effect handles.
    pub effect_handles: Vec<EffectHandleData>,
    /// Effect model entries.
    pub effect_model_entries: Vec<EffectModelEntryData>,
    /// The contained resource, if any.
    pub resource_data: Option<Vec<u8>>,
}

/// An effect handle with its model named and its group elements inline.
#[derive(Debug, Clone, PartialEq)]
pub struct EffectHandleData {
    /// Name of the handle.
    pub name: String,
    /// Attributes of the effect.
    pub flags: EffectHandleDataFlags,
    /// Index of the emitter set.
    pub emitter_set_handle: i32,
    /// Name of the model; empty for none.
    pub effect_model_name: String,
    /// The handle's group elements, in order.
    pub effect_group: Vec<EffectGroupElementData>,
}

/// A group element with its parent joint named.
#[derive(Debug, Clone, PartialEq)]
pub struct EffectGroupElementData {
    /// Frame on which the emitter set is requested.
    pub emitter_set_start_frame: i16,
    /// Index of the emitter set.
    pub emitter_set_handle: i16,
    /// Joint that the emitter set is parented to.
    pub parent_joint_name: String,
}

/// A model entry with its name.
#[derive(Debug, Clone, PartialEq)]
pub struct EffectModelEntryData {
    /// Name of the model.
    pub name: String,
    /// A byte of unknown purpose, kept as it is.
    pub unk: i8,
}

pub struct GroupElementModel {
    pub emitter_set_start_frame: i16,
    pub emitter_set_handle: i16,
    pub parent_joint_name: Seq<char>,
}

pub struct HandleModel {
    pub name: Seq<char>,
    pub flags: EffectHandleDataFlags,
    pub emitter_set_handle: i32,
    pub effect_model_name: Seq<char>,
    pub effect_group: Seq<GroupElementModel>,
}

pub struct ModelEntryModel {
    pub name: Seq<char>,
    pub unk: i8,
}

/// The mathematical value of an [`EffData`].
pub struct DataModel {
    pub handles: Seq<HandleModel>,
    pub model_entries: Seq<ModelEntryModel>,
    pub resource: Option<Seq<u8>>,
}

impl View for EffectGroupElementData {
    type V = GroupElementModel;

    open spec fn view(&self) -> GroupElementModel {
        GroupElementModel {
            emitter_set_start_frame: self.emitter_set_start_frame,
            emitter_set_handle: self.emitter_set_handle,
            parent_joint_name: self.parent_joint_name@,
        }
    }
}

impl View for EffectHandleData {
    type V = HandleModel;

    open spec fn view(&self) -> HandleModel {
        HandleModel {
            name: self.name@,
            flags: self.flags,
            emitter_set_handle: self.emitter_set_handle,
            effect_model_name: self.effect_model_name@,
            effect_group: self.effect_group@.map_values(|g: EffectGroupElementData| g@),
        }
    }
}

impl View for EffectModelEntryData {
    type V = ModelEntryModel;

    open spec fn view(&self) -> ModelEntryModel {
        ModelEntryModel { name: self.name@, unk: self.unk }
    }
}

impl View for EffData {
    type V = DataModel;

    open spec fn view(&self) -> DataModel {
        DataModel {
            handles: self.effect_handles@.map_values(|h: EffectHandleData| h@),
            model_entries: self.effect_model_entries@.map_values(|m: EffectModelEntryData| m@),
            resource: match self.resource_data {
                Some(v) => Some(v@),
                None => None,
            },
        }
    }
}

/// The group elements of all handles, one handle after the other.
pub open spec fn flat_groups(hs: Seq<HandleModel>) -> Seq<GroupElementModel>
    decreases hs.len(),
{
    if hs.len() == 0 {
        Seq::empty()
    } else {
        flat_groups(hs.drop_last()) + hs.last().effect_group
    }
}

/// `j` is the first position of a model entry named `name`.
pub open spec fn is_first_match(ms: Seq<ModelEntryModel>, name: Seq<char>, j: int) -> bool {
    &&& 0 <= j < ms.len()
    &&& ms[j].name == name
    &&& forall|k: int| 0 <= k < j ==> ms[k].name != name
}

/// The 1-based position of the first model entry named `name`, 0 if none is.
pub open spec fn model_index(ms: Seq<ModelEntryModel>, name: Seq<char>) -> int {
    if exists|j: int| is_first_match(ms, name, j) {
        (choose|j: int| is_first_match(ms, name, j)) + 1
    } else {
        0
    }
}

pub open spec fn raw_group(g: GroupElementModel) -> EffectGroupElement {
    EffectGroupElement {
        emitter_set_start_frame: g.emitter_set_start_frame,
        emitter_set_handle: g.emitter_set_handle,
    }
}

/// The raw record of handle `i`: its group starts right after the groups of
/// the handles before it (1-based), or is 0 when it has none.
pub open spec fn raw_handle(d: DataModel, i: int) -> EffectHandle {
    let h = d.handles[i];
    EffectHandle {
        flags: from_data_flags(h.flags),
        emitter_set_handle: h.emitter_set_handle,
        effect_model_entry_handle: model_index(d.model_entries, h.effect_model_name) as i32,
        effect_group_element_start: if h.effect_group.len() == 0 {
            0i16
        } else {
            (flat_groups(d.handles.take(i)).len() + 1) as i16
        },
        effect_group_element_count: h.effect_group.len() as i16,
    }
}

/// The container that a name-based value maps to.
pub open spec fn to_raw(d: DataModel) -> RawModel {
    RawModel {
        handles: Seq::new(d.handles.len(), |i: int| raw_handle(d, i)),
        group_elements: flat_groups(d.handles).map_values(|g: GroupElementModel| raw_group(g)),
        model_entries: d.model_entries.map_values(|m: ModelEntryModel| EffectModelEntry { unk: m.unk }),
        handle_names: d.handles.map_values(|h: HandleModel| encode_utf8(h.name)),
        model_names: d.model_entries.map_values(|m: ModelEntryModel| encode_utf8(m.name)),
        joint_names: flat_groups(d.handles).map_values(
            |g: GroupElementModel| encode_utf8(g.parent_joint_name),
        ),
        resource: d.resource,
    }
}

/// The sizes that the index fields can hold: the group cursor fits 16 bits
/// and a model position fits 32 bits.
pub open spec fn indices_fit(d: DataModel) -> bool {
    &&& flat_groups(d.handles).len() <= 0x7fff
    &&& d.model_entries.len() < 0x7fffffff
}


/// Handle `h`'s model index and group range lie inside the tables of `r`.
pub open spec fn handle_refs_ok(r: RawModel, h: EffectHandle) -> bool {
    &&& 0 <= h.effect_model_entry_handle <= r.model_names.len()
    &&& h.effect_group_element_count != 0 ==> {
        &&& h.effect_group_element_count > 0
        &&& h.effect_group_element_start >= 1
        &&& h.effect_group_element_start - 1 + h.effect_group_element_count
            <= r.group_elements.len()
    }
}

/// Every name table has one name per record and every handle refers inside
/// the tables.
pub open spec fn refs_ok(r: RawModel) -> bool {
    &&& r.handle_names.len() == r.handles.len()
    &&& r.model_names.len() == r.model_entries.len()
    &&& r.joint_names.len() == r.group_elements.len()
    &&& forall|i: int| 0 <= i < r.handles.len() ==> handle_refs_ok(r, #[trigger] r.handles[i])
}

pub open spec fn all_text(ns: Seq<Seq<u8>>) -> bool {
    forall|i: int| 0 <= i < ns.len() ==> valid_utf8(#[trigger] ns[i])
}

/// Every name of the three tables is valid UTF-8.
pub open spec fn texts_ok(r: RawModel) -> bool {
    &&& all_text(r.handle_names)
    &&& all_text(r.model_names)
    &&& all_text(r.joint_names)
}

pub open spec fn data_group(r: RawModel, p: int) -> GroupElementModel {
    GroupElementModel {
        emitter_set_start_frame: r.group_elements[p].emitter_set_start_frame,
        emitter_set_handle: r.group_elements[p].emitter_set_handle,
        parent_joint_name: decode_utf8(r.joint_names[p]),
    }
}

/// Handle `i` of `r` with its name, its model's name (empty for index 0) and
/// the slice of group elements that it refers to.
pub open spec fn data_handle(r: RawModel, i: int) -> HandleModel {
    let h = r.handles[i];
    HandleModel {
        name: decode_utf8(r.handle_names[i]),
        flags: to_data_flags(h.flags),
        emitter_set_handle: h.emitter_set_handle,
        effect_model_name: if h.effect_model_entry_handle == 0 {
            Seq::empty()
        } else {
            decode_utf8(r.model_names[h.effect_model_entry_handle - 1])
        },
        effect_group: if h.effect_group_element_count == 0 {
            Seq::empty()
        } else {
            Seq::new(
                h.effect_group_element_count as nat,
                |k: int| data_group(r, h.effect_group_element_start - 1 + k),
            )
        },
    }
}

pub open spec fn data_model_entry(r: RawModel, i: int) -> ModelEntryModel {
    ModelEntryModel { name: decode_utf8(r.model_names[i]), unk: r.model_entries[i].unk }
}

/// The name-based value of a container: `CorruptIndex` if a table length or
/// a reference is off, else `InvalidText` if a name is not UTF-8.
pub open spec fn from_raw(r: RawModel) -> Result<DataModel, EffError> {
    if !refs_ok(r) {
        Err(EffError::CorruptIndex)
    } else if !texts_ok(r) {
        Err(EffError::InvalidText)
    } else {
        Ok(
            DataModel {
                handles: Seq::new(r.handles.len(), |i: int| data_handle(r, i)),
                model_entries: Seq::new(r.model_entries.len(), |i: int| data_model_entry(r, i)),
                resource: r.resource,
            },
        )
    }
}

proof fn lemma_flat_groups_prefix(hs: Seq<HandleModel>, i: int, j: int)
    requires
        0 <= i <= j <= hs.len(),
    ensures
        flat_groups(hs.take(i)).len() <= flat_groups(hs.take(j)).len(),
        flat_groups(hs.take(j)).take(flat_groups(hs.take(i)).len() as int) == flat_groups(
            hs.take(i),
        ),
    decreases j - i,
{
    if i < j {
        lemma_flat_groups_prefix(hs, i, j - 1);
        assert(hs.take(j).drop_last() =~= hs.take(j - 1));
        let a = flat_groups(hs.take(i));
        let b = flat_groups(hs.take(j - 1));
        assert(flat_groups(hs.take(j)) == b + hs[j - 1].effect_group);
        assert((b + hs[j - 1].effect_group).take(a.len() as int) =~= b.take(a.len() as int));
    } else {
        assert(flat_groups(hs.take(j)).take(flat_groups(hs.take(i)).len() as int)
            =~= flat_groups(hs.take(i)));
    }
}

proof fn lemma_flat_groups_step(hs: Seq<HandleModel>, i: int)
    requires
        0 <= i < hs.len(),
    ensures
        flat_groups(hs.take(i + 1)) == flat_groups(hs.take(i)) + hs[i].effect_group,
{
    assert(hs.take(i + 1).drop_last() =~= hs.take(i));
}


/// Every handle's model name is empty or the name of some model entry.
pub open spec fn model_names_resolve(d: DataModel) -> bool {
    forall|i: int|
        0 <= i < d.handles.len() ==> (#[trigger] d.handles[i]).effect_model_name.len() == 0
            || exists|j: int|
            0 <= j < d.model_entries.len() && d.model_entries[j].name
                == d.handles[i].effect_model_name
}

proof fn lemma_first_match(ms: Seq<ModelEntryModel>, name: Seq<char>, j: int)
    requires
        0 <= j < ms.len(),
        ms[j].name == name,
    ensures
        exists|k: int| is_first_match(ms, name, k),
    decreases j,
{
    if exists|k: int| 0 <= k < j && ms[k].name == name {
        let k = choose|k: int| 0 <= k < j && ms[k].name == name;
        lemma_first_match(ms, name, k);
    } else {
        assert(is_first_match(ms, name, j));
    }
}

proof fn lemma_model_index(ms: Seq<ModelEntryModel>, name: Seq<char>)
    ensures
        0 <= model_index(ms, name) <= ms.len(),
        model_index(ms, name) != 0 ==> ms[model_index(ms, name) - 1].name == name,
        (exists|j: int| 0 <= j < ms.len() && ms[j].name == name) ==> model_index(ms, name) != 0,
{
    if exists|j: int| 0 <= j < ms.len() && ms[j].name == name {
        let j = choose|j: int| 0 <= j < ms.len() && ms[j].name == name;
        lemma_first_match(ms, name, j);
    }
}

proof fn lemma_group_of_handle(hs: Seq<HandleModel>, i: int, k: int)
    requires
        0 <= i < hs.len(),
        0 <= k < hs[i].effect_group.len(),
    ensures
        flat_groups(hs.take(i)).len() + hs[i].effect_group.len() <= flat_groups(hs).len(),
        flat_groups(hs)[flat_groups(hs.take(i)).len() + k] == hs[i].effect_group[k],
{
    lemma_flat_groups_step(hs, i);
    lemma_flat_groups_prefix(hs, i + 1, hs.len() as int);
    assert(hs.take(hs.len() as int) =~= hs);
    let a = flat_groups(hs.take(i));
    let b = flat_groups(hs.take(i + 1));
    assert(flat_groups(hs).take(b.len() as int)[a.len() + k] == b[a.len() + k]);
}

proof fn lemma_handle_round_trip(d: DataModel, i: int)
    requires
        indices_fit(d),
        model_names_resolve(d),
        0 <= i < d.handles.len(),
    ensures
        handle_refs_ok(to_raw(d), to_raw(d).handles[i]),
        data_handle(to_raw(d), i) == d.handles[i],
{
    broadcast use vstd::utf8::encode_utf8_decode_utf8;

    let r = to_raw(d);
    let h = d.handles[i];
    let rh = r.handles[i];
    let hs = d.handles;
    lemma_model_index(d.model_entries, h.effect_model_name);
    let mi = model_index(d.model_entries, h.effect_model_name);
    assert(rh.effect_model_entry_handle == mi);
    let n = h.effect_group.len();
    if n > 0 {
        lemma_group_of_handle(hs, i, 0);
    }
    lemma_flat_groups_prefix(hs, i, hs.len() as int);
    assert(hs.take(hs.len() as int) =~= hs);
    assert(rh.effect_group_element_count == n);
    let dh = data_handle(r, i);
    assert(dh.effect_group =~= h.effect_group) by {
        if n > 0 {
            assert forall|k: int| 0 <= k < n implies dh.effect_group[k] == h.effect_group[k] by {
                lemma_group_of_handle(hs, i, k);
            }
        }
    }
    crate::flags::lemma_data_flags_round_trip(from_data_flags(h.flags), h.flags);
    assert(dh.effect_model_name =~= h.effect_model_name);
}

/// Projecting the container that a name-based value maps to gives back that
/// value, when each handle's model name is empty or names a model entry and
/// the indices fit their fields. Model names need not be unique.
pub proof fn lemma_data_round_trip(d: DataModel)
    requires
        indices_fit(d),
        model_names_resolve(d),
    ensures
        from_raw(to_raw(d)) == Ok::<DataModel, EffError>(d),
{
    broadcast use vstd::utf8::encode_utf8_decode_utf8, vstd::utf8::encode_utf8_valid_utf8;

    let r = to_raw(d);
    assert forall|i: int| 0 <= i < r.handles.len() implies handle_refs_ok(
        r,
        #[trigger] r.handles[i],
    ) by {
        lemma_handle_round_trip(d, i);
    }
    assert(refs_ok(r));
    assert(texts_ok(r));
    let out = from_raw(r)->Ok_0;
    assert(out.handles =~= d.handles) by {
        assert forall|i: int| 0 <= i < d.handles.len() implies out.handles[i] == d.handles[i] by {
            lemma_handle_round_trip(d, i);
        }
    }
    assert(out.model_entries =~= d.model_entries);
}

/// A handle without group elements gets start and count 0, and a count of 0
/// projects to an empty group whatever the start.
pub proof fn lemma_empty_group(d: DataModel, r: RawModel, i: int)
    requires
        0 <= i < d.handles.len(),
        d.handles[i].effect_group.len() == 0,
        0 <= i < r.handles.len(),
        r.handles[i].effect_group_element_count == 0,
    ensures
        to_raw(d).handles[i].effect_group_element_start == 0,
        to_raw(d).handles[i].effect_group_element_count == 0,
        data_handle(r, i).effect_group.len() == 0,
{
}

/// Group starts follow the handles: a handle with elements starts one past
/// the elements of all handles before it, so that the ranges of two handles
/// never overlap and later ones start later.
pub proof fn lemma_group_ranges(d: DataModel, i: int, j: int)
    requires
        indices_fit(d),
        0 <= i < j < d.handles.len(),
        d.handles[i].effect_group.len() > 0,
        d.handles[j].effect_group.len() > 0,
    ensures
        to_raw(d).handles[i].effect_group_element_start + to_raw(d).handles[i].effect_group_element_count
            <= to_raw(d).handles[j].effect_group_element_start,
{
    let hs = d.handles;
    lemma_group_of_handle(hs, i, 0);
    lemma_group_of_handle(hs, j, 0);
    lemma_flat_groups_step(hs, i);
    lemma_flat_groups_prefix(hs, i + 1, j);
}

/// Finds the first model entry named `name`.
fn find_model(ms: &Vec<EffectModelEntryData>, name: &String) -> (r: i32)
    requires
        ms@.len() < 0x7fffffff,
    ensures
        r == model_index(ms@.map_values(|m: EffectModelEntryData| m@), name@),
{
    let ghost mv = ms@.map_values(|m: EffectModelEntryData| m@);
    let mut i: usize = 0;
    while i < ms.len()
        invariant
            i <= ms@.len(),
            ms@.len() < 0x7fffffff,
            mv == ms@.map_values(|m: EffectModelEntryData| m@),
            forall|k: int| 0 <= k < i ==> mv[k].name != name@,
        decreases ms@.len() - i,
    {
        if ms[i].name == *name {
            assert(is_first_match(mv, name@, i as int));
            proof {
                let j = choose|j: int| is_first_match(mv, name@, j);
                if j < i {
                    assert(mv[j].name != name@);
                } else if i < j {
                    assert(mv[i as int].name != name@);
                }
            }
            return (i + 1) as i32;
        }
        i = i + 1;
    }
    assert forall|j: int| !is_first_match(mv, name@, j) by {
        if 0 <= j < mv.len() {
            assert(mv[j].name != name@);
        }
    }
    0
}

/// Appends the raw records and the joint names of one handle's group.
fn push_group(
    groups: &mut Vec<EffectGroupElement>,
    joints: &mut Vec<CString>,
    g: &Vec<EffectGroupElementData>,
)
    ensures
        final(groups)@ == old(groups)@ + g@.map_values(
            |e: EffectGroupElementData| raw_group(e@),
        ),
        final(joints)@.map_values(|c: CString| c@) == old(joints)@.map_values(|c: CString| c@)
            + g@.map_values(|e: EffectGroupElementData| encode_utf8(e@.parent_joint_name)),
{
    let ghost g0 = groups@;
    let ghost j0 = joints@.map_values(|c: CString| c@);
    let mut k: usize = 0;
    while k < g.len()
        invariant
            k <= g@.len(),
            groups@ == g0 + g@.take(k as int).map_values(|e: EffectGroupElementData| raw_group(e@)),
            joints@.map_values(|c: CString| c@) == j0 + g@.take(k as int).map_values(
                |e: EffectGroupElementData| encode_utf8(e@.parent_joint_name),
            ),
        decreases g@.len() - k,
    {
        let e = &g[k];
        groups.push(
            EffectGroupElement {
                emitter_set_start_frame: e.emitter_set_start_frame,
                emitter_set_handle: e.emitter_set_handle,
            },
        );
        let c = CString::from_text(e.parent_joint_name.as_str());
        assert(c@ == encode_utf8(g@[k as int]@.parent_joint_name));
        let ghost before = joints@;
        joints.push(c);
        assert(joints@.map_values(|c: CString| c@) =~= before.map_values(|c: CString| c@).push(
            encode_utf8(g@[k as int]@.parent_joint_name),
        ));
        assert(g@.take(k + 1) =~= g@.take(k as int).push(g@[k as int]));
        k = k + 1;
        assert(groups@ =~= g0 + g@.take(k as int).map_values(
            |e: EffectGroupElementData| raw_group(e@),
        ));
        assert(joints@.map_values(|c: CString| c@) =~= j0 + g@.take(k as int).map_values(
            |e: EffectGroupElementData| encode_utf8(e@.parent_joint_name),
        ));
    }
    assert(g@.take(k as int) =~= g@);
}


/// The texts of a name table, if every name is valid UTF-8.
fn texts_of(ns: &Vec<CString>) -> (r: Option<Vec<String>>)
    ensures
        r is Some <==> all_text(ns@.map_values(|c: CString| c@)),
        r matches Some(v) ==> v@.len() == ns@.len() && forall|k: int|
            0 <= k < ns@.len() ==> (#[trigger] v@[k])@ == decode_utf8(ns@[k]@),
{
    let ghost nv = ns@.map_values(|c: CString| c@);
    let mut out: Vec<String> = Vec::new();
    let mut i: usize = 0;
    while i < ns.len()
        invariant
            i <= ns@.len(),
            nv == ns@.map_values(|c: CString| c@),
            out@.len() == i,
            forall|k: int| 0 <= k < i ==> valid_utf8(#[trigger] nv[k]),
            forall|k: int| 0 <= k < i ==> (#[trigger] out@[k])@ == decode_utf8(ns@[k]@),
        decreases ns@.len() - i,
    {
        match ns[i].to_string() {
            Ok(t) => {
                out.push(t);
            },
            Err(_) => {
                assert(!valid_utf8(nv[i as int]));
                return None;
            },
        }
        i = i + 1;
    }
    Some(out)
}

/// The group elements `start .. start + count` with their joint names.
fn group_slice(value: &EffFile, joints: &Vec<String>, start: usize, count: usize) -> (r: Vec<
    EffectGroupElementData,
>)
    requires
        start + count <= value@.group_elements.len(),
        joints@.len() == value@.joint_names.len(),
        value@.joint_names.len() == value@.group_elements.len(),
        forall|k: int|
            0 <= k < joints@.len() ==> (#[trigger] joints@[k])@ == decode_utf8(
                value@.joint_names[k],
            ),
    ensures
        r@.map_values(|g: EffectGroupElementData| g@) == Seq::new(
            count as nat,
            |k: int| data_group(value@, start + k),
        ),
{
    let mut out: Vec<EffectGroupElementData> = Vec::new();
    let glen = value.effect_group_elements.len();
    let mut k: usize = 0;
    while k < count
        invariant
            k <= count,
            glen == value@.group_elements.len(),
            start + count <= value@.group_elements.len(),
            joints@.len() == value@.joint_names.len(),
            value@.joint_names.len() == value@.group_elements.len(),
            forall|t: int|
                0 <= t < joints@.len() ==> (#[trigger] joints@[t])@ == decode_utf8(
                    value@.joint_names[t],
                ),
            out@.map_values(|g: EffectGroupElementData| g@) == Seq::new(
                k as nat,
                |t: int| data_group(value@, start + t),
            ),
        decreases count - k,
    {
        let p = start + k;
        let e = value.effect_group_elements[p];
        let joint = joints[p].clone();
        assert(joint@ == joints@[p as int]@);
        let g = EffectGroupElementData {
            emitter_set_start_frame: e.emitter_set_start_frame,
            emitter_set_handle: e.emitter_set_handle,
            parent_joint_name: joint,
        };
        assert(g@ == data_group(value@, start + k));
        let ghost before = out@;
        out.push(g);
        assert(out@.map_values(|g: EffectGroupElementData| g@) =~= before.map_values(
            |g: EffectGroupElementData| g@,
        ).push(g@));
        k = k + 1;
        assert(out@.map_values(|g: EffectGroupElementData| g@) =~= Seq::new(
            k as nat,
            |t: int| data_group(value@, start + t),
        ));
    }
    out
}

impl EffData {
    /// The name-based value of a container. Fails with `CorruptIndex` when a
    /// name table's length or a handle's model index or group range is off,
    /// else with `InvalidText` when a name is not valid UTF-8.
    pub fn from_eff_file(value: &EffFile) -> (r: Result<EffData, EffError>)
        ensures
            match from_raw(value@) {
                Ok(d) => r matches Ok(v) && v@ == d,
                Err(e) => r == Err::<EffData, EffError>(e),
            },
    {
        let ghost rv = value@;
        let n = value.effect_handles.len();
        if value.effect_handle_names.len() != n || value.effect_model_names.len()
            != value.effect_model_entries.len() || value.parent_joint_names.len()
            != value.effect_group_elements.len() {
            return Err(EffError::CorruptIndex);
        }
        let n_models = value.effect_model_names.len();
        let n_groups = value.effect_group_elements.len();
        let mut i: usize = 0;
        while i < n
            invariant
                rv == value@,
                n == rv.handles.len(),
                n_models == rv.model_names.len(),
                n_groups == rv.group_elements.len(),
                i <= n,
                forall|k: int| 0 <= k < i ==> handle_refs_ok(rv, #[trigger] rv.handles[k]),
            decreases n - i,
        {
            let h = value.effect_handles[i];
            let m = h.effect_model_entry_handle;
            let c = h.effect_group_element_count;
            let st = h.effect_group_element_start;
            if m < 0 || m as usize > n_models {
                assert(!handle_refs_ok(rv, rv.handles[i as int]));
                return Err(EffError::CorruptIndex);
            }
            if c != 0 && (c < 0 || st < 1 || (st - 1) as usize + c as usize > n_groups) {
                assert(!handle_refs_ok(rv, rv.handles[i as int]));
                return Err(EffError::CorruptIndex);
            }
            i = i + 1;
        }
        assert(refs_ok(rv));
        let handle_names = match texts_of(&value.effect_handle_names) {
            None => return Err(EffError::InvalidText),
            Some(v) => v,
        };
        let model_names = match texts_of(&value.effect_model_names) {
            None => return Err(EffError::InvalidText),
            Some(v) => v,
        };
        let joint_names = match texts_of(&value.parent_joint_names) {
            None => return Err(EffError::InvalidText),
            Some(v) => v,
        };
        assert(texts_ok(rv));
        let mut handles: Vec<EffectHandleData> = Vec::new();
        let mut i: usize = 0;
        while i < n
            invariant
                rv == value@,
                refs_ok(rv),
                n == rv.handles.len(),
                i <= n,
                handle_names@.len() == n,
                model_names@.len() == rv.model_names.len(),
                joint_names@.len() == rv.joint_names.len(),
                forall|k: int|
                    0 <= k < n ==> (#[trigger] handle_names@[k])@ == decode_utf8(
                        rv.handle_names[k],
                    ),
                forall|k: int|
                    0 <= k < model_names@.len() ==> (#[trigger] model_names@[k])@ == decode_utf8(
                        rv.model_names[k],
                    ),
                forall|k: int|
                    0 <= k < joint_names@.len() ==> (#[trigger] joint_names@[k])@ == decode_utf8(
                        rv.joint_names[k],
                    ),
                handles@.map_values(|h: EffectHandleData| h@) == Seq::new(
                    i as nat,
                    |k: int| data_handle(rv, k),
                ),
            decreases n - i,
        {
            let h = value.effect_handles[i];
            assert(handle_refs_ok(rv, rv.handles[i as int]));
            let m = h.effect_model_entry_handle;
            let model_name = if m == 0 {
                String::new()
            } else {
                model_names[(m - 1) as usize].clone()
            };
            let c = h.effect_group_element_count;
            let group = if c == 0 {
                Vec::new()
            } else {
                group_slice(
                    value,
                    &joint_names,
                    (h.effect_group_element_start - 1) as usize,
                    c as usize,
                )
            };
            let name = handle_names[i].clone();
            assert(name@ == handle_names@[i as int]@);
            proof {
                if m != 0 {
                    assert(model_name@ == model_names@[m - 1]@);
                }
            }
            let hd = EffectHandleData {
                name,
                flags: h.flags.to_data(),
                emitter_set_handle: h.emitter_set_handle,
                effect_model_name: model_name,
                effect_group: group,
            };
            assert(hd@.effect_group =~= data_handle(rv, i as int).effect_group);
            assert(hd@ == data_handle(rv, i as int));
            let ghost before = handles@;
            handles.push(hd);
            assert(handles@.map_values(|h: EffectHandleData| h@) =~= before.map_values(
                |h: EffectHandleData| h@,
            ).push(hd@));
            i = i + 1;
            assert(handles@.map_values(|h: EffectHandleData| h@) =~= Seq::new(
                i as nat,
                |k: int| data_handle(rv, k),
            ));
        }
        let mut entries: Vec<EffectModelEntryData> = Vec::new();
        let nm = value.effect_model_entries.len();
        let mut i: usize = 0;
        while i < nm
            invariant
                rv == value@,
                refs_ok(rv),
                nm == rv.model_entries.len(),
                i <= nm,
                model_names@.len() == rv.model_names.len(),
                forall|k: int|
                    0 <= k < model_names@.len() ==> (#[trigger] model_names@[k])@ == decode_utf8(
                        rv.model_names[k],
                    ),
                entries@.map_values(|m: EffectModelEntryData| m@) == Seq::new(
                    i as nat,
                    |k: int| data_model_entry(rv, k),
                ),
            decreases nm - i,
        {
            let name = model_names[i].clone();
            assert(name@ == model_names@[i as int]@);
            let me = EffectModelEntryData { name, unk: value.effect_model_entries[i].unk };
            assert(me@ == data_model_entry(rv, i as int));
            let ghost before = entries@;
            entries.push(me);
            assert(entries@.map_values(|m: EffectModelEntryData| m@) =~= before.map_values(
                |m: EffectModelEntryData| m@,
            ).push(me@));
            i = i + 1;
            assert(entries@.map_values(|m: EffectModelEntryData| m@) =~= Seq::new(
                i as nat,
                |k: int| data_model_entry(rv, k),
            ));
        }
        let resource_data = match &value.resource_data {
            None => None,
            Some(v) => Some(v.clone()),
        };
        let d = EffData { effect_handles: handles, effect_model_entries: entries, resource_data };
        assert(d@ =~= from_raw(rv)->Ok_0);
        Ok(d)
    }
}

impl EffFile {
    /// The container of a name-based value. Each handle's model name becomes
    /// the 1-based position of the first model entry of that name (0 if none
    /// has it), and its group elements are appended to the shared table.
    pub fn from_data(value: &EffData) -> (r: EffFile)
        requires
            indices_fit(value@),
        ensures
            r@ == to_raw(value@),
    {
        let ghost d = value@;
        let ghost hs = d.handles;
        let mut handles: Vec<EffectHandle> = Vec::new();
        let mut groups: Vec<EffectGroupElement> = Vec::new();
        let mut joints: Vec<CString> = Vec::new();
        let mut names: Vec<CString> = Vec::new();
        let mut cursor: i16 = 0;
        let mut i: usize = 0;
        while i < value.effect_handles.len()
            invariant
                d == value@,
                hs == d.handles,
                indices_fit(d),
                i <= hs.len(),
                cursor == flat_groups(hs.take(i as int)).len(),
                handles@ == Seq::new(i as nat, |k: int| raw_handle(d, k)),
                groups@ == flat_groups(hs.take(i as int)).map_values(
                    |g: GroupElementModel| raw_group(g),
                ),
                joints@.map_values(|c: CString| c@) == flat_groups(hs.take(i as int)).map_values(
                    |g: GroupElementModel| encode_utf8(g.parent_joint_name),
                ),
                names@.map_values(|c: CString| c@) == hs.take(i as int).map_values(
                    |h: HandleModel| encode_utf8(h.name),
                ),
            decreases hs.len() - i,
        {
            let h = &value.effect_handles[i];
            assert(hs[i as int] == h@);
            proof {
                lemma_flat_groups_step(hs, i as int);
                lemma_flat_groups_prefix(hs, i + 1, hs.len() as int);
                assert(hs.take(hs.len() as int) =~= hs);
            }
            let count: usize = h.effect_group.len();
            let model = find_model(&value.effect_model_entries, &h.effect_model_name);
            let start: i16 = if count == 0 {
                0
            } else {
                cursor + 1
            };
            handles.push(
                EffectHandle {
                    flags: EffectHandleFlags::from_data(&h.flags),
                    emitter_set_handle: h.emitter_set_handle,
                    effect_model_entry_handle: model,
                    effect_group_element_start: start,
                    effect_group_element_count: count as i16,
                },
            );
            let ghost groups_before = groups@;
            let ghost joints_before = joints@.map_values(|c: CString| c@);
            push_group(&mut groups, &mut joints, &h.effect_group);
            let c = CString::from_text(h.name.as_str());
            let ghost names_before = names@;
            names.push(c);
            assert(names@.map_values(|c: CString| c@) =~= names_before.map_values(|c: CString| c@).push(
                encode_utf8(hs[i as int].name),
            ));
            assert(hs.take(i + 1) =~= hs.take(i as int).push(hs[i as int]));
            cursor = cursor + count as i16;
            i = i + 1;
            assert(handles@ =~= Seq::new(i as nat, |k: int| raw_handle(d, k)));
            assert(h@.effect_group.map_values(|g: GroupElementModel| raw_group(g))
                =~= h.effect_group@.map_values(|e: EffectGroupElementData| raw_group(e@)));
            assert(h@.effect_group.map_values(
                |g: GroupElementModel| encode_utf8(g.parent_joint_name),
            ) =~= h.effect_group@.map_values(
                |e: EffectGroupElementData| encode_utf8(e@.parent_joint_name),
            ));
            assert(groups@ =~= flat_groups(hs.take(i as int)).map_values(
                |g: GroupElementModel| raw_group(g),
            ));
            assert(joints@.map_values(|c: CString| c@) =~= flat_groups(
                hs.take(i as int),
            ).map_values(|g: GroupElementModel| encode_utf8(g.parent_joint_name)));
            assert(names@.map_values(|c: CString| c@) =~= hs.take(i as int).map_values(
                |h: HandleModel| encode_utf8(h.name),
            ));
        }
        assert(hs.take(i as int) =~= hs);
        let mut entries: Vec<EffectModelEntry> = Vec::new();
        let mut model_names: Vec<CString> = Vec::new();
        let ghost ms = d.model_entries;
        let mut i: usize = 0;
        while i < value.effect_model_entries.len()
            invariant
                d == value@,
                ms == d.model_entries,
                i <= ms.len(),
                entries@ == ms.take(i as int).map_values(
                    |m: ModelEntryModel| EffectModelEntry { unk: m.unk },
                ),
                model_names@.map_values(|c: CString| c@) == ms.take(i as int).map_values(
                    |m: ModelEntryModel| encode_utf8(m.name),
                ),
            decreases ms.len() - i,
        {
            let m = &value.effect_model_entries[i];
            assert(ms[i as int] == m@);
            entries.push(EffectModelEntry { unk: m.unk });
            let c = CString::from_text(m.name.as_str());
            let ghost names_before = model_names@;
            model_names.push(c);
            assert(model_names@.map_values(|c: CString| c@) =~= names_before.map_values(|c: CString| c@).push(
                encode_utf8(ms[i as int].name),
            ));
            assert(ms.take(i + 1) =~= ms.take(i as int).push(ms[i as int]));
            i = i + 1;
            assert(entries@ =~= ms.take(i as int).map_values(
                |m: ModelEntryModel| EffectModelEntry { unk: m.unk },
            ));
            assert(model_names@.map_values(|c: CString| c@) =~= ms.take(i as int).map_values(
                |m: ModelEntryModel| encode_utf8(m.name),
            ));
        }
        assert(ms.take(i as int) =~= ms);
        let resource_data = match &value.resource_data {
            None => None,
            Some(v) => Some(v.clone()),
        };
        let r = EffFile {
            effect_handles: handles,
            effect_group_elements: groups,
            effect_model_entries: entries,
            effect_handle_names: names,
            effect_model_names: model_names,
            parent_joint_names: joints,
            resource_data,
        };
        assert(r@.handles =~= to_raw(d).handles);
        r
    }
}


impl EffData {
    /// Decodes the bytes of a container and projects it to names.
    pub fn read(b: &[u8]) -> (r: Result<EffData, EffError>)
        ensures
            match decoded(b@) {
                Err(e) => r == Err::<EffData, EffError>(e),
                Ok(m) => match from_raw(m) {
                    Ok(d) => r matches Ok(v) && v@ == d,
                    Err(e) => r == Err::<EffData, EffError>(e),
                },
            },
    {
        match EffFile::read(b) {
            Err(e) => Err(e),
            Ok(f) => EffData::from_eff_file(&f),
        }
    }

    /// Maps the value to a container and encodes it.
    pub fn write(&self) -> (r: Vec<u8>)
        requires
            indices_fit(self@),
            encoded(to_raw(self@)).len() <= usize::MAX,
        ensures
            r@ == encoded(to_raw(self@)),
    {
        let f = EffFile::from_data(self);
        f.write()
    }
}

/// A name-based value that the container format holds faithfully: no name
/// (of a handle, a model entry or a group element's joint) holds a NUL
/// character, each table's length fits the header's 16-bit counts, and with
/// a resource the number of pages before it fits 16 bits too.
pub open spec fn is_encodable(d: DataModel) -> bool {
    &&& indices_fit(d)
    &&& d.handles.len() <= 0x7fff
    &&& d.model_entries.len() <= 0x7fff
    &&& forall|i: int|
        0 <= i < d.handles.len() ==> !(#[trigger] d.handles[i]).name.contains('\0')
    &&& forall|i: int|
        0 <= i < d.model_entries.len() ==> !(#[trigger] d.model_entries[i]).name.contains('\0')
    &&& forall|i: int|
        0 <= i < flat_groups(d.handles).len() ==> !(
        #[trigger] flat_groups(d.handles)[i]).parent_joint_name.contains('\0')
    &&& d.resource is Some ==> pages(pre_resource_size(to_raw(d))) <= 0x7fff
}

/// The container of an encodable value is well formed.
pub proof fn lemma_encodable_well_formed(d: DataModel)
    requires
        is_encodable(d),
    ensures
        is_well_formed(to_raw(d)),
{
    let r = to_raw(d);
    assert forall|i: int| 0 <= i < r.handle_names.len() implies !(
    #[trigger] r.handle_names[i]).contains(0u8) by {
        lemma_encode_utf8_nul_free(d.handles[i].name);
    }
    assert forall|i: int| 0 <= i < r.model_names.len() implies !(
    #[trigger] r.model_names[i]).contains(0u8) by {
        lemma_encode_utf8_nul_free(d.model_entries[i].name);
    }
    assert forall|i: int| 0 <= i < r.joint_names.len() implies !(
    #[trigger] r.joint_names[i]).contains(0u8) by {
        lemma_encode_utf8_nul_free(flat_groups(d.handles)[i].parent_joint_name);
    }
}

/// The whole trip: an encodable value whose model names each name a model
/// entry (or are empty) is written to bytes that read back to that value.
pub proof fn lemma_bytes_round_trip(d: DataModel)
    requires
        is_encodable(d),
        model_names_resolve(d),
    ensures
        decoded(encoded(to_raw(d))) == Ok::<RawModel, EffError>(to_raw(d)),
        from_raw(to_raw(d)) == Ok::<DataModel, EffError>(d),
{
    lemma_encodable_well_formed(d);
    lemma_decode_encode(to_raw(d));
    lemma_data_round_trip(d);
}

} // verus!
