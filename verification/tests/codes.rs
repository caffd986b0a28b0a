use dns_resolver::codes::{QueryType, ResultCode};

#[test]
fn result_code_from_known_numbers() {
    assert_eq!(ResultCode::from(0), ResultCode::NOERROR);
    assert_eq!(ResultCode::from(1), ResultCode::FORMERR);
    assert_eq!(ResultCode::from(2), ResultCode::SERVFAIL);
    assert_eq!(ResultCode::from(3), ResultCode::NXDOMAIN);
    assert_eq!(ResultCode::from(4), ResultCode::NOTIMP);
    assert_eq!(ResultCode::from(5), ResultCode::REFUSED);
}

#[test]
fn result_code_from_unknown_number_is_noerror() {
    assert_eq!(ResultCode::from(6), ResultCode::NOERROR);
    assert_eq!(ResultCode::from(15), ResultCode::NOERROR);
    assert_eq!(ResultCode::from(255), ResultCode::NOERROR);
}

#[test]
fn query_type_numbers() {
    assert_eq!(QueryType::A.to_num(), 1);
    assert_eq!(QueryType::NS.to_num(), 2);
    assert_eq!(QueryType::CNAME.to_num(), 5);
    assert_eq!(QueryType::MX.to_num(), 15);
    assert_eq!(QueryType::AAAA.to_num(), 28);
    assert_eq!(QueryType::UNKNOWN(99).to_num(), 99);
}

#[test]
fn query_type_round_trip_over_all_numbers() {
    let mut num: u16 = 0;
    loop {
        assert_eq!(QueryType::from_num(num).to_num(), num);
        if num == u16::MAX {
            break;
        }
        num += 1;
    }
    assert_eq!(QueryType::from_num(1), QueryType::A);
    assert_eq!(QueryType::from_num(28), QueryType::AAAA);
    assert_eq!(QueryType::from_num(16), QueryType::UNKNOWN(16));
}
