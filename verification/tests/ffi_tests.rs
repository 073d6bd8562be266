use alice_ledger::ffi::{ffi_to_order, order_to_ffi, FfiOrder};

#[test]
fn test_order_conversion_roundtrip() {
    let ffi = FfiOrder {
        id: 42,
        side: 1,
        order_type: 2,
        stop_price: 5000,
        price: 4900,
        quantity: 100,
        filled_quantity: 25,
        timestamp_ns: 99,
        tif: 3,
        expiry_ns: 9999,
    };
    let rust = ffi_to_order(&ffi);
    let back = order_to_ffi(&rust);
    assert_eq!(ffi.id, back.id);
    assert_eq!(ffi.side, back.side);
    assert_eq!(ffi.order_type, back.order_type);
    assert_eq!(ffi.stop_price, back.stop_price);
    assert_eq!(ffi.price, back.price);
    assert_eq!(ffi.quantity, back.quantity);
    assert_eq!(ffi.filled_quantity, back.filled_quantity);
    assert_eq!(ffi.tif, back.tif);
    assert_eq!(ffi.expiry_ns, back.expiry_ns);
}
