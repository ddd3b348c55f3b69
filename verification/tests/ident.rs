use sonic_gateway::fault::Fault;
use sonic_gateway::ident::{
    decode_object_id, id_string, object_id, owner_of, read_id, storage_key,
};
use sonic_gateway::scan::{chars_of, find_char, same_text};

const ID: u128 = 0xa1a2a3a4_b1b2_c1c2_d1d2_d3d4d5d6d7d8;

#[test]
fn id_text_is_hyphenated_lower_case() {
    assert_eq!(id_string(ID), "a1a2a3a4-b1b2-c1c2-d1d2-d3d4d5d6d7d8");
    assert_eq!(id_string(0), "00000000-0000-0000-0000-000000000000");
    assert_eq!(id_string(u128::MAX), "ffffffff-ffff-ffff-ffff-ffffffffffff");
    assert_eq!(id_string(0x0123456789abcdef_fedcba9876543210),
        "01234567-89ab-cdef-fedc-ba9876543210");
}

#[test]
fn id_text_agrees_with_the_uuid_crate() {
    for id in [0u128, 1, 15, 16, ID, u128::MAX, 1 << 127, 0xdead_beef] {
        assert_eq!(id_string(id), uuid::Uuid::from_u128(id).to_string());
    }
}

#[test]
fn object_id_joins_id_and_field_with_an_underscore() {
    assert_eq!(object_id(ID, "title"), "a1a2a3a4-b1b2-c1c2-d1d2-d3d4d5d6d7d8_title");
    assert_eq!(object_id(ID, ""), "a1a2a3a4-b1b2-c1c2-d1d2-d3d4d5d6d7d8_");
    assert_eq!(object_id(ID, "a_b"), "a1a2a3a4-b1b2-c1c2-d1d2-d3d4d5d6d7d8_a_b");
}

#[test]
fn storage_key_is_namespaced() {
    assert_eq!(storage_key(ID), "items_a1a2a3a4-b1b2-c1c2-d1d2-d3d4d5d6d7d8");
}

#[test]
fn owner_is_what_stands_before_the_first_underscore() {
    assert_eq!(owner_of("abc_title"), "abc");
    assert_eq!(owner_of("abc_a_b"), "abc");
    assert_eq!(owner_of("abc"), "abc");
    assert_eq!(owner_of("_x"), "");
    assert_eq!(owner_of(""), "");
    assert_eq!(owner_of("é_è"), "é");
}

#[test]
fn object_id_decodes_to_its_item() {
    assert_eq!(decode_object_id(&object_id(ID, "title")), Ok(ID));
    assert_eq!(decode_object_id(&object_id(ID, "a_b")), Ok(ID));
    assert_eq!(decode_object_id(&object_id(0, "")), Ok(0));
    assert_eq!(decode_object_id("A1A2A3A4-B1B2-C1C2-D1D2-D3D4D5D6D7D8_title"), Ok(ID));
    assert_eq!(decode_object_id("a1a2a3a4b1b2c1c2d1d2d3d4d5d6d7d8_title"), Ok(ID));
    assert_eq!(decode_object_id("a1a2a3a4-b1b2-c1c2-d1d2-d3d4d5d6d7d8"), Ok(ID));
}

#[test]
fn object_id_of_no_item_is_a_fault_of_the_engine() {
    assert_eq!(decode_object_id("title"), Err(Fault::EngineFault));
    assert_eq!(decode_object_id(""), Err(Fault::EngineFault));
    assert_eq!(decode_object_id("_title"), Err(Fault::EngineFault));
    assert_eq!(decode_object_id("a1a2a3a4-b1b2-c1c2-d1d2-d3d4d5d6d7d_title"),
        Err(Fault::EngineFault));
    assert_eq!(read_id("g1a2a3a4-b1b2-c1c2-d1d2-d3d4d5d6d7d8"), Err(Fault::EngineFault));
}

#[test]
fn read_id_reads_what_id_string_writes() {
    for id in [0u128, 1, ID, u128::MAX] {
        assert_eq!(read_id(&id_string(id)), Ok(id));
    }
}

#[test]
fn find_char_gives_the_first_place_or_the_length() {
    assert_eq!(find_char("a_b_c", '_'), 1);
    assert_eq!(find_char("_", '_'), 0);
    assert_eq!(find_char("abc", '_'), 3);
    assert_eq!(find_char("", '_'), 0);
    assert_eq!(find_char("éé_", '_'), 2);
}

#[test]
fn strings_are_read_character_by_character() {
    assert_eq!(chars_of("aé_"), vec!['a', 'é', '_']);
    assert_eq!(chars_of(""), Vec::<char>::new());
    assert!(same_text("Bearer", "Bearer"));
    assert!(!same_text("Bearer", "bearer"));
    assert!(!same_text("Bearer", "Bearer "));
}
