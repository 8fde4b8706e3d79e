use synchronized::rtm::{
    decode_status, TxStatus, _XABORT_CAPACITY, _XABORT_CODE, _XABORT_CONFLICT, _XABORT_DEBUG,
    _XABORT_EXPLICIT, _XABORT_NESTED, _XABORT_RETRY, _XBEGIN_STARTED,
};

#[test]
fn decode_each_status() {
    assert_eq!(decode_status(_XBEGIN_STARTED), TxStatus::Started);
    assert_eq!(decode_status(_XABORT_EXPLICIT), TxStatus::AbortExplicit);
    assert_eq!(decode_status(_XABORT_RETRY), TxStatus::AbortRetry);
    assert_eq!(decode_status(_XABORT_CONFLICT), TxStatus::AbortConflict);
    assert_eq!(decode_status(_XABORT_CAPACITY), TxStatus::AbortCapacity);
    assert_eq!(decode_status(_XABORT_DEBUG), TxStatus::AbortDebug);
    assert_eq!(decode_status(_XABORT_NESTED), TxStatus::AbortNested);
    assert_eq!(decode_status(0), TxStatus::AbortUnknown);
}

#[test]
fn decode_priority() {
    // an explicit abort wins over the retry hint set beside it
    assert_eq!(decode_status(_XABORT_EXPLICIT | _XABORT_RETRY), TxStatus::AbortExplicit);
    assert_eq!(decode_status(_XABORT_RETRY | _XABORT_CONFLICT), TxStatus::AbortRetry);
}

#[test]
fn abort_code_top_byte() {
    let status = (0xab_u32 << 24) | _XABORT_EXPLICIT;
    assert_eq!(_XABORT_CODE(status), 0xab);
    assert_eq!(decode_status(status), TxStatus::AbortExplicit);
    assert_eq!(_XABORT_CODE(_XABORT_RETRY), 0);
}
