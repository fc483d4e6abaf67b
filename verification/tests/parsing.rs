use memscan::args::{
    parse_address_locator, parse_data_type, parse_duration, parse_ida_signature,
    parse_ida_signature_with_offset, parse_pointer, ArgError, ParsedDuration,
};
use memscan::address::AddressLocator;
use memscan::data_type::DataType;

#[test]
fn hex_literal_is_an_absolute_locator() {
    let l = parse_address_locator("0x1A2b").unwrap();
    assert!(matches!(l, AddressLocator::Absolute(0x1A2B)));
    let l = parse_address_locator("0X10").unwrap();
    assert!(matches!(l, AddressLocator::Absolute(0x10)));
}

#[test]
fn bad_hex_literal_is_rejected() {
    assert_eq!(
        parse_address_locator("0xZZ").unwrap_err(),
        ArgError::InvalidHexAddress
    );
    assert_eq!(
        parse_address_locator("0x").unwrap_err(),
        ArgError::InvalidHexAddress
    );
}

#[test]
fn signature_with_wildcards_parses() {
    let p = parse_ida_signature("AA ?? CC").unwrap();
    assert_eq!(p, vec![Some(0xAA), None, Some(0xCC)]);
    let p = parse_ida_signature("aa ? c").unwrap();
    assert_eq!(p, vec![Some(0xAA), None, Some(0x0C)]);
}

#[test]
fn signature_token_that_is_no_byte_is_rejected() {
    assert_eq!(
        parse_ida_signature("AA GG").unwrap_err(),
        ArgError::InvalidHexByte
    );
    assert_eq!(
        parse_ida_signature("123").unwrap_err(),
        ArgError::InvalidHexByte
    );
    assert_eq!(
        parse_ida_signature("???").unwrap_err(),
        ArgError::InvalidHexByte
    );
}

#[test]
fn signature_offset_suffix_parses() {
    let sig = parse_ida_signature_with_offset("AA ?? CC@3/7").unwrap();
    assert_eq!(sig.pattern().clone(), vec![Some(0xAA), None, Some(0xCC)]);
    let off = sig.rip_offset().unwrap();
    assert_eq!(off.offset, 3);
    assert_eq!(off.instruction_size, 7);
}

#[test]
fn signature_without_suffix_has_no_offset() {
    let sig = parse_ida_signature_with_offset("AA BB").unwrap();
    assert!(sig.rip_offset().is_none());
}

#[test]
fn malformed_offset_suffix_is_rejected() {
    assert_eq!(
        parse_ida_signature_with_offset("AA@3").unwrap_err(),
        ArgError::InvalidOffset
    );
    assert_eq!(
        parse_ida_signature_with_offset("AA@x/7").unwrap_err(),
        ArgError::InvalidOffset
    );
    assert_eq!(
        parse_ida_signature_with_offset("AA@3/x").unwrap_err(),
        ArgError::InvalidInstructionSize
    );
}

#[test]
fn locator_with_chain_hops_parses() {
    let l = parse_address_locator("AA ?? CC@3/7 -> 8 -> 0x10").unwrap();
    match l {
        AddressLocator::PointerChain(sig, hops) => {
            assert_eq!(sig.pattern().clone(), vec![Some(0xAA), None, Some(0xCC)]);
            let off = sig.rip_offset().unwrap();
            assert_eq!((off.offset, off.instruction_size), (3, 7));
            assert_eq!(hops, vec![0x8, 0x10]);
        }
        other => panic!("expected a pointer chain, got {:?}", other),
    }
}

#[test]
fn locator_without_hops_is_a_pattern() {
    let l = parse_address_locator("AA BB").unwrap();
    assert!(matches!(l, AddressLocator::Pattern(_)));
}

#[test]
fn bad_chain_hop_is_rejected() {
    assert_eq!(
        parse_address_locator("AA BB -> zz").unwrap_err(),
        ArgError::InvalidPointer
    );
}

#[test]
fn pointer_accepts_optional_hex_prefix() {
    assert_eq!(parse_pointer("0x10").unwrap(), 0x10);
    assert_eq!(parse_pointer("0X10").unwrap(), 0x10);
    assert_eq!(parse_pointer("ff").unwrap(), 0xFF);
    assert_eq!(parse_pointer("zz").unwrap_err(), ArgError::InvalidPointer);
}

#[test]
fn data_type_names_parse() {
    assert_eq!(parse_data_type("u8").unwrap(), DataType::U8);
    assert_eq!(parse_data_type("f64").unwrap(), DataType::F64);
    assert_eq!(parse_data_type("pointer32").unwrap(), DataType::Pointer32);
    assert_eq!(parse_data_type("mat4").unwrap(), DataType::Mat4);
    assert_eq!(parse_data_type("color32").unwrap(), DataType::Color32);
    assert_eq!(
        parse_data_type("u128").unwrap_err(),
        ArgError::UnknownDataType
    );
}

#[test]
fn durations_parse_by_unit_suffix() {
    assert_eq!(
        parse_duration("5s").unwrap(),
        ParsedDuration { secs: 5, nanos: 0 }
    );
    assert_eq!(
        parse_duration("1500ms").unwrap(),
        ParsedDuration { secs: 1, nanos: 500_000_000 }
    );
    assert_eq!(
        parse_duration("250us").unwrap(),
        ParsedDuration { secs: 0, nanos: 250_000 }
    );
    assert_eq!(parse_duration("5").unwrap_err(), ArgError::InvalidDuration);
    assert_eq!(parse_duration("xs").unwrap_err(), ArgError::InvalidDuration);
}
