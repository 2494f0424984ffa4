use eff_lib::{EffectHandleDataFlags, EffectHandleFlags};

#[test]
fn new_flags_pack_to_zero() {
    assert_eq!(EffectHandleFlags::new().into_bits(), 0);
}

#[test]
fn named_flags_sit_at_their_bits() {
    let mut f = EffectHandleFlags::new();
    f.unk_01 = true;
    assert_eq!(f.into_bits(), 1);
    let mut f = EffectHandleFlags::new();
    f.unk_09 = true;
    assert_eq!(f.into_bits(), 1 << 8);
    let mut f = EffectHandleFlags::new();
    f.hit_effect = true;
    assert_eq!(f.into_bits(), 1 << 18);
    let mut f = EffectHandleFlags::new();
    f.update_always = true;
    assert_eq!(f.into_bits(), 1 << 23);
    let mut f = EffectHandleFlags::new();
    f.unk_32 = true;
    assert_eq!(f.into_bits(), 1 << 31);
}

#[test]
fn reserved_bits_are_dropped() {
    let f = EffectHandleFlags::from_bits(0xFFFF_FFFF);
    assert_eq!(f.into_bits(), 0xF3DD_F37F);
    let f = EffectHandleFlags::from_bits(0x0C22_0C80);
    assert_eq!(f, EffectHandleFlags::new());
}

#[test]
fn unpack_then_pack_keeps_named_bits() {
    let w: u32 = 0x8180_1005;
    let f = EffectHandleFlags::from_bits(w);
    assert!(f.unk_01 && f.unk_03 && f.unk_13 && f.update_always && f.unk_25 && f.unk_32);
    assert!(!f.unk_02);
    assert_eq!(f.into_bits(), w);
    assert_eq!(EffectHandleFlags::from_bits(f.into_bits()), f);
}

#[test]
fn get_follows_the_table() {
    let f = EffectHandleFlags::from_bits(0xFFFF_FFFF);
    for k in 0..32u32 {
        let reserved = [7, 10, 11, 17, 21, 26, 27].contains(&k);
        assert_eq!(f.get(k), !reserved);
    }
}

#[test]
fn data_flags_convert_both_ways() {
    let f = EffectHandleFlags::from_bits(0x1234_5678);
    let d: EffectHandleDataFlags = f.to_data();
    assert_eq!(d.unk_04, f.unk_04);
    assert_eq!(d.hit_effect, f.hit_effect);
    assert_eq!(EffectHandleFlags::from_data(&d), f);
}
