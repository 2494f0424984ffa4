use eff_lib::{
    CString, EffData, EffError, EffFile, EffectGroupElement, EffectGroupElementData,
    EffectHandle, EffectHandleData, EffectHandleDataFlags, EffectHandleFlags, EffectModelEntry,
    EffectModelEntryData,
};

fn no_flags() -> EffectHandleDataFlags {
    EffectHandleFlags::new().to_data()
}

fn handle(name: &str, model: &str, group: &[(i16, i16, &str)]) -> EffectHandleData {
    EffectHandleData {
        name: name.to_string(),
        flags: no_flags(),
        emitter_set_handle: 1,
        effect_model_name: model.to_string(),
        effect_group: group
            .iter()
            .map(|(f, e, j)| EffectGroupElementData {
                emitter_set_start_frame: *f,
                emitter_set_handle: *e,
                parent_joint_name: j.to_string(),
            })
            .collect(),
    }
}

fn model(name: &str, unk: i8) -> EffectModelEntryData {
    EffectModelEntryData { name: name.to_string(), unk }
}

fn raw_handle(model: i32, start: i16, count: i16) -> EffectHandle {
    EffectHandle {
        flags: EffectHandleFlags::new(),
        emitter_set_handle: 0,
        effect_model_entry_handle: model,
        effect_group_element_start: start,
        effect_group_element_count: count,
    }
}

fn raw_with(handles: Vec<EffectHandle>, n_groups: usize, n_models: usize) -> EffFile {
    EffFile {
        effect_handle_names: handles.iter().map(|_| CString::from_text("h")).collect(),
        effect_handles: handles,
        effect_group_elements: vec![
            EffectGroupElement { emitter_set_start_frame: 0, emitter_set_handle: 0 };
            n_groups
        ],
        effect_model_entries: vec![EffectModelEntry { unk: 0 }; n_models],
        effect_model_names: (0..n_models).map(|_| CString::from_text("m")).collect(),
        parent_joint_names: (0..n_groups).map(|_| CString::from_text("j")).collect(),
        resource_data: None,
    }
}

#[test]
fn group_starts_follow_the_cursor() {
    let d = EffData {
        effect_handles: vec![
            handle("first", "", &[(0, 10, "A"), (5, 11, "B")]),
            handle("second", "", &[(2, 12, "C")]),
            handle("third", "", &[]),
        ],
        effect_model_entries: Vec::new(),
        resource_data: None,
    };
    let f = EffFile::from_data(&d);
    let starts: Vec<i16> = f.effect_handles.iter().map(|h| h.effect_group_element_start).collect();
    let counts: Vec<i16> = f.effect_handles.iter().map(|h| h.effect_group_element_count).collect();
    assert_eq!(starts, vec![1, 3, 0]);
    assert_eq!(counts, vec![2, 1, 0]);
    assert_eq!(f.effect_group_elements.len(), 3);
    assert_eq!(f.effect_group_elements[2].emitter_set_handle, 12);
    let joints: Vec<&[u8]> = f.parent_joint_names.iter().map(|j| j.as_bytes()).collect();
    assert_eq!(joints, vec![&b"A"[..], &b"B"[..], &b"C"[..]]);
}

#[test]
fn duplicate_model_names_resolve_to_the_first() {
    let d = EffData {
        effect_handles: vec![handle("h", "dup", &[]), handle("g", "other", &[])],
        effect_model_entries: vec![
            model("a", 0),
            model("b", 0),
            model("dup", 1),
            model("c", 0),
            model("d", 0),
            model("dup", 0),
        ],
        resource_data: None,
    };
    let f = EffFile::from_data(&d);
    assert_eq!(f.effect_handles[0].effect_model_entry_handle, 3);
    assert_eq!(f.effect_handles[1].effect_model_entry_handle, 0);
}

#[test]
fn empty_model_name_without_entry_is_zero() {
    let d = EffData {
        effect_handles: vec![handle("h", "", &[])],
        effect_model_entries: vec![model("m", 0)],
        resource_data: None,
    };
    let f = EffFile::from_data(&d);
    assert_eq!(f.effect_handles[0].effect_model_entry_handle, 0);
    let back = EffData::from_eff_file(&f).unwrap();
    assert_eq!(back.effect_handles[0].effect_model_name, "");
}

#[test]
fn empty_group_maps_to_zero_and_back() {
    let d = EffData {
        effect_handles: vec![handle("h", "", &[])],
        effect_model_entries: Vec::new(),
        resource_data: None,
    };
    let f = EffFile::from_data(&d);
    assert_eq!(f.effect_handles[0].effect_group_element_start, 0);
    assert_eq!(f.effect_handles[0].effect_group_element_count, 0);
    // a zero count gives an empty group whatever the start says
    let raw = raw_with(vec![raw_handle(0, 9, 0)], 0, 0);
    let back = EffData::from_eff_file(&raw).unwrap();
    assert!(back.effect_handles[0].effect_group.is_empty());
}

#[test]
fn named_value_round_trips_through_bytes() {
    let mut flags = no_flags();
    flags.update_always = true;
    flags.unk_29 = true;
    let mut first = handle("P_Fire", "M_Fire", &[(0, 3, "top"), (10, 4, "hip")]);
    first.flags = flags;
    first.emitter_set_handle = 42;
    let d = EffData {
        effect_handles: vec![
            first,
            handle("P_Smoke", "", &[(1, 5, "j\u{f6}int")]),
            handle("P_None", "M_Fire", &[]),
        ],
        effect_model_entries: vec![model("M_Fire", 1), model("M_Fire", 0)],
        resource_data: Some(vec![0xDE, 0xAD, 0xBE, 0xEF]),
    };
    let bytes = d.write();
    let back = EffData::read(&bytes).unwrap();
    assert_eq!(back, d);
    assert_eq!(back.write(), bytes);
}

#[test]
fn model_index_out_of_range_is_corrupt() {
    let raw = raw_with(vec![raw_handle(2, 0, 0)], 0, 1);
    assert_eq!(EffData::from_eff_file(&raw).err(), Some(EffError::CorruptIndex));
    let raw = raw_with(vec![raw_handle(-1, 0, 0)], 0, 1);
    assert_eq!(EffData::from_eff_file(&raw).err(), Some(EffError::CorruptIndex));
    let raw = raw_with(vec![raw_handle(1, 0, 0)], 0, 1);
    assert_eq!(EffData::from_eff_file(&raw).unwrap().effect_handles[0].effect_model_name, "m");
}

#[test]
fn group_range_out_of_bounds_is_corrupt() {
    let raw = raw_with(vec![raw_handle(0, 2, 2)], 2, 0);
    assert_eq!(EffData::from_eff_file(&raw).err(), Some(EffError::CorruptIndex));
    let raw = raw_with(vec![raw_handle(0, 0, 1)], 2, 0);
    assert_eq!(EffData::from_eff_file(&raw).err(), Some(EffError::CorruptIndex));
    let raw = raw_with(vec![raw_handle(0, 1, -1)], 2, 0);
    assert_eq!(EffData::from_eff_file(&raw).err(), Some(EffError::CorruptIndex));
    let raw = raw_with(vec![raw_handle(0, 2, 1)], 2, 0);
    assert_eq!(EffData::from_eff_file(&raw).unwrap().effect_handles[0].effect_group.len(), 1);
}

#[test]
fn mismatched_name_table_is_corrupt() {
    let mut raw = raw_with(vec![raw_handle(0, 0, 0)], 0, 0);
    raw.effect_handle_names.clear();
    assert_eq!(EffData::from_eff_file(&raw).err(), Some(EffError::CorruptIndex));
}

#[test]
fn invalid_name_text_is_reported() {
    let mut raw = raw_with(vec![raw_handle(0, 0, 0)], 1, 0);
    raw.parent_joint_names[0] = CString::from_vec(vec![0xFF]);
    assert_eq!(EffData::from_eff_file(&raw).err(), Some(EffError::InvalidText));
    let bytes = raw.write();
    assert_eq!(EffData::read(&bytes).err(), Some(EffError::InvalidText));
}

#[test]
fn read_passes_decoding_errors_on() {
    assert_eq!(EffData::read(b"NOPE").err(), Some(EffError::BadMagic));
    assert_eq!(EffData::read(b"EFFN").err(), Some(EffError::Truncated));
}
