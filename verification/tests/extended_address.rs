use sapio::extended_address::{
    ExtendedAddress, ObjectError, OpReturn, MAX_OP_RETURN_BYTES, OP_RETURN,
};

fn op_return(data: &[u8]) -> OpReturn {
    match ExtendedAddress::make_op_return(data).unwrap() {
        ExtendedAddress::OpReturn(o) => o,
        other => panic!("not an OP_RETURN: {:?}", other),
    }
}

#[test]
fn op_return_pushes_its_data_after_the_opcode() {
    let o = op_return(&[1, 2, 3]);
    assert_eq!(o.0, vec![OP_RETURN, 3, 1, 2, 3]);
    let empty = op_return(&[]);
    assert_eq!(empty.0, vec![OP_RETURN, 0]);
    let full = op_return(&[7; MAX_OP_RETURN_BYTES]);
    assert_eq!(full.0.len(), 2 + MAX_OP_RETURN_BYTES);
    assert_eq!(full.0[1], 40);
}

#[test]
fn op_return_data_beyond_forty_bytes_is_refused() {
    assert_eq!(
        ExtendedAddress::make_op_return(&[0; MAX_OP_RETURN_BYTES + 1]).unwrap_err(),
        ObjectError::OpReturnTooLong
    );
}

#[test]
fn only_scripts_starting_with_op_return_are_accepted() {
    assert!(OpReturn::try_from_script(vec![OP_RETURN, 1, 9]).is_ok());
    assert_eq!(OpReturn::try_from_script(vec![0x51]).unwrap_err(), "Not an Op Return");
    assert!(OpReturn::try_from_script(vec![]).is_err());
}

#[test]
fn every_destination_pays_to_its_script() {
    let o = ExtendedAddress::make_op_return(&[5]).unwrap();
    assert_eq!(o.script_pubkey(), vec![OP_RETURN, 1, 5]);
    assert_eq!(ExtendedAddress::Address(vec![0x00, 0x14]).script_pubkey(), vec![0x00, 0x14]);
    assert_eq!(ExtendedAddress::Descriptor(vec![0x51, 0x20]).script_pubkey(), vec![0x51, 0x20]);
    assert_eq!(ExtendedAddress::Unknown(vec![0x52]).script_pubkey(), vec![0x52]);
}
