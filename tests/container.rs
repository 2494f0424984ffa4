use eff_lib::{
    CString, EffError, EffFile, EffectGroupElement, EffectHandle, EffectHandleFlags,
    EffectModelEntry,
};

fn empty_file() -> EffFile {
    EffFile {
        effect_handles: Vec::new(),
        effect_group_elements: Vec::new(),
        effect_model_entries: Vec::new(),
        effect_handle_names: Vec::new(),
        effect_model_names: Vec::new(),
        parent_joint_names: Vec::new(),
        resource_data: None,
    }
}

fn sample_file(resource: Option<Vec<u8>>) -> EffFile {
    let mut flags = EffectHandleFlags::new();
    flags.hit_effect = true;
    flags.unk_01 = true;
    EffFile {
        effect_handles: vec![
            EffectHandle {
                flags,
                emitter_set_handle: 7,
                effect_model_entry_handle: 1,
                effect_group_element_start: 1,
                effect_group_element_count: 2,
            },
            EffectHandle {
                flags: EffectHandleFlags::new(),
                emitter_set_handle: -1,
                effect_model_entry_handle: 0,
                effect_group_element_start: 0,
                effect_group_element_count: 0,
            },
        ],
        effect_group_elements: vec![
            EffectGroupElement { emitter_set_start_frame: 0, emitter_set_handle: 3 },
            EffectGroupElement { emitter_set_start_frame: -5, emitter_set_handle: 4 },
        ],
        effect_model_entries: vec![EffectModelEntry { unk: 1 }],
        effect_handle_names: vec![CString::from_text("P_A"), CString::from_text("P_B")],
        effect_model_names: vec![CString::from_text("M")],
        parent_joint_names: vec![CString::from_text("top"), CString::from_text("hip")],
        resource_data: resource,
    }
}

fn assert_same(a: &EffFile, b: &EffFile) {
    assert_eq!(a.effect_handles, b.effect_handles);
    assert_eq!(a.effect_group_elements, b.effect_group_elements);
    assert_eq!(a.effect_model_entries, b.effect_model_entries);
    assert_eq!(a.effect_handle_names, b.effect_handle_names);
    assert_eq!(a.effect_model_names, b.effect_model_names);
    assert_eq!(a.parent_joint_names, b.parent_joint_names);
    assert_eq!(a.resource_data, b.resource_data);
}

#[test]
fn empty_file_is_the_bare_header() {
    let bytes = empty_file().write();
    assert_eq!(
        bytes,
        vec![0x45, 0x46, 0x46, 0x4E, 0, 0, 2, 0, 0, 0, 0, 0, 0, 0, 0xFF, 0xFF]
    );
    let back = EffFile::read(&bytes).unwrap();
    assert_same(&back, &empty_file());
}

#[test]
fn header_and_records_are_little_endian() {
    let bytes = sample_file(None).write();
    assert_eq!(&bytes[0..4], b"EFFN");
    assert_eq!(&bytes[8..16], &[2, 0, 1, 0, 2, 0, 0xFF, 0xFF]);
    // first handle: flags (bits 0 and 18), emitter 7, model 1, start 1, count 2
    assert_eq!(
        &bytes[16..32],
        &[0x01, 0x00, 0x04, 0x00, 7, 0, 0, 0, 1, 0, 0, 0, 1, 0, 2, 0]
    );
    // second handle's emitter index -1
    assert_eq!(&bytes[36..40], &[0xFF, 0xFF, 0xFF, 0xFF]);
    // group elements, then the model entry
    assert_eq!(&bytes[48..56], &[0, 0, 3, 0, 0xFB, 0xFF, 4, 0]);
    assert_eq!(bytes[56], 1);
    // name tables
    assert_eq!(&bytes[57..], b"P_A\0P_B\0M\0top\0hip\0");
}

#[test]
fn raw_round_trip_without_resource() {
    let f = sample_file(None);
    let bytes = f.write();
    let back = EffFile::read(&bytes).unwrap();
    assert_same(&back, &f);
    assert_eq!(back.write(), bytes);
}

#[test]
fn raw_round_trip_with_resource() {
    let f = sample_file(Some(vec![9, 8, 7, 6]));
    let bytes = f.write();
    let back = EffFile::read(&bytes).unwrap();
    assert_same(&back, &f);
    assert_eq!(back.write(), bytes);
}

#[test]
fn resource_is_aligned_to_the_factor() {
    // 16 + 32 + 8 + 1 + 18 = 75 bytes precede the resource: one page
    let bytes = sample_file(Some(vec![1, 2, 3])).write();
    assert_eq!(&bytes[14..16], &[1, 0]);
    assert_eq!(bytes.len(), 0x1000 + 3);
    assert!(bytes[75..0x1000].iter().all(|b| *b == 0));
    assert_eq!(&bytes[0x1000..], &[1, 2, 3]);
}

#[test]
fn factor_counts_pages_of_the_preceding_size() {
    // a handle name long enough that 0x1001 bytes precede the resource
    let mut f = empty_file();
    f.effect_handles.push(EffectHandle {
        flags: EffectHandleFlags::new(),
        emitter_set_handle: 0,
        effect_model_entry_handle: 0,
        effect_group_element_start: 0,
        effect_group_element_count: 0,
    });
    f.effect_handle_names.push(CString::from_vec(vec![b'x'; 0x1001 - 16 - 16 - 1]));
    f.resource_data = Some(vec![5]);
    let bytes = f.write();
    assert_eq!(&bytes[14..16], &[2, 0]);
    assert_eq!(bytes.len(), 0x2000 + 1);
    assert_eq!(bytes[0x2000], 5);

    // exactly one page precedes the resource: no padding at all
    let mut g = empty_file();
    g.effect_handles = f.effect_handles.clone();
    g.effect_handle_names.push(CString::from_vec(vec![b'x'; 0x1000 - 16 - 16 - 1]));
    g.resource_data = Some(vec![5]);
    let bytes = g.write();
    assert_eq!(&bytes[14..16], &[1, 0]);
    assert_eq!(bytes.len(), 0x1000 + 1);
    let back = EffFile::read(&bytes).unwrap();
    assert_eq!(back.resource_data, Some(vec![5]));
}

#[test]
fn absent_resource_has_no_padding() {
    let f = sample_file(None);
    let bytes = f.write();
    assert_eq!(&bytes[14..16], &[0xFF, 0xFF]);
    assert_eq!(bytes.len(), 75);
    assert_eq!(EffFile::read(&bytes).unwrap().resource_data, None);
}

#[test]
fn empty_resource_is_kept() {
    let f = sample_file(Some(Vec::new()));
    let bytes = f.write();
    assert_eq!(bytes.len(), 0x1000);
    assert_eq!(EffFile::read(&bytes).unwrap().resource_data, Some(Vec::new()));
}

#[test]
fn bad_magic_is_rejected() {
    let mut bytes = sample_file(None).write();
    bytes[3] = b'X';
    assert_eq!(EffFile::read(&bytes).err(), Some(EffError::BadMagic));
    assert_eq!(EffFile::read(b"ABCD").err(), Some(EffError::BadMagic));
}

#[test]
fn short_input_is_truncated() {
    assert_eq!(EffFile::read(b"EF").err(), Some(EffError::Truncated));
    assert_eq!(EffFile::read(b"EFFN\0\0\x02\0").err(), Some(EffError::Truncated));
    let bytes = sample_file(None).write();
    // inside the records
    assert_eq!(EffFile::read(&bytes[..40]).err(), Some(EffError::Truncated));
    // inside the last name
    assert_eq!(EffFile::read(&bytes[..bytes.len() - 1]).err(), Some(EffError::Truncated));
}

#[test]
fn negative_count_is_rejected() {
    let mut bytes = empty_file().write();
    bytes[10] = 0xFF;
    bytes[11] = 0xFF;
    assert_eq!(EffFile::read(&bytes).err(), Some(EffError::BadCount));
}

#[test]
fn alignment_past_the_end_gives_an_empty_resource() {
    let mut bytes = empty_file().write();
    bytes[14] = 3;
    bytes[15] = 0;
    assert_eq!(EffFile::read(&bytes).unwrap().resource_data, Some(Vec::new()));
}

#[test]
fn small_factor_aligns_to_one_byte() {
    let mut bytes = empty_file().write();
    bytes[14] = 0;
    bytes[15] = 0;
    bytes.extend_from_slice(&[4, 5]);
    assert_eq!(EffFile::read(&bytes).unwrap().resource_data, Some(vec![4, 5]));
}
