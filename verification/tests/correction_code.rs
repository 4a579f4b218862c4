use animefs::error_code::CorrectionCode;

/// The standard connection pattern, written out for a 3+1-byte code.
fn standard_code_connections() -> Vec<Vec<Vec<u8>>> {
    vec![vec![
        vec![0b00010001, 0b00010001, 0b00010001],
        vec![0b00100010, 0b00100010, 0b00100010],
        vec![0b01000100, 0b01000100, 0b01000100],
        vec![0b10001000, 0b10001000, 0b10001000],
        vec![0b00010001, 0b00010001, 0b00010001],
        vec![0b00100010, 0b00100010, 0b00100010],
        vec![0b01000100, 0b01000100, 0b01000100],
        vec![0b10001000, 0b10001000, 0b10001000],
    ]]
}

#[test]
fn standard_form() {
    assert_eq!(
        CorrectionCode::<3, 1>::new(standard_code_connections()),
        CorrectionCode::<3, 1>::standard()
    );
}

#[test]
fn test_zero_code() {
    let zero_code = CorrectionCode::<1, 1>::zero();

    assert_eq!(zero_code.encode_block(&vec![u8::MIN]), [u8::MIN]);
    assert_eq!(zero_code.encode_block(&vec![u8::MAX]), [u8::MIN]);
    assert_eq!(zero_code.encode_block(&vec![0b10101010]), [u8::MIN]);
    assert_eq!(zero_code.encode_block(&vec![0b11111110]), [u8::MIN]);

    let zero_code = CorrectionCode::<2, 1>::zero();

    assert_eq!(zero_code.encode_block(&vec![u8::MIN, u8::MIN]), [u8::MIN]);
    assert_eq!(zero_code.encode_block(&vec![u8::MAX, u8::MAX]), [u8::MIN]);
    assert_eq!(zero_code.encode_block(&vec![0b10101010, 0b11001100]), [u8::MIN]);
    assert_eq!(zero_code.encode_block(&vec![0b11111110, 0b00000001]), [u8::MIN]);

    let zero_code = CorrectionCode::<1, 2>::zero();

    assert_eq!(zero_code.encode_block(&vec![u8::MIN]), [u8::MIN, u8::MIN]);
    assert_eq!(zero_code.encode_block(&vec![u8::MAX]), [u8::MIN, u8::MIN]);
    assert_eq!(zero_code.encode_block(&vec![0b10101010]), [u8::MIN, u8::MIN]);
    assert_eq!(zero_code.encode_block(&vec![0b11111110]), [u8::MIN, u8::MIN]);
}

#[test]
fn test_full_code() {
    let full_code = CorrectionCode::<1, 1>::full();

    assert_eq!(full_code.encode_block(&vec![u8::MIN]), [u8::MIN]);
    assert_eq!(full_code.encode_block(&vec![u8::MAX]), [u8::MIN]);
    assert_eq!(full_code.encode_block(&vec![0b10101010]), [u8::MIN]);
    assert_eq!(full_code.encode_block(&vec![0b11111110]), [u8::MAX]);

    let full_code = CorrectionCode::<2, 1>::full();

    assert_eq!(full_code.encode_block(&vec![u8::MIN, u8::MIN]), [u8::MIN]);
    assert_eq!(full_code.encode_block(&vec![u8::MAX, u8::MAX]), [u8::MIN]);
    assert_eq!(full_code.encode_block(&vec![0b10101010, 0b11001100]), [u8::MIN]);
    assert_eq!(full_code.encode_block(&vec![0b11111110, 0b00000001]), [u8::MIN]);
    assert_eq!(full_code.encode_block(&vec![0b11111111, 0b00000001]), [u8::MAX]);

    let full_code = CorrectionCode::<1, 2>::full();

    assert_eq!(full_code.encode_block(&vec![u8::MIN]), [u8::MIN, u8::MIN]);
    assert_eq!(full_code.encode_block(&vec![u8::MAX]), [u8::MIN, u8::MIN]);
    assert_eq!(full_code.encode_block(&vec![0b10101010]), [u8::MIN, u8::MIN]);
    assert_eq!(full_code.encode_block(&vec![0b11111110]), [u8::MAX, u8::MAX]);
}
