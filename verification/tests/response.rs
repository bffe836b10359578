use dice::{res_verify, ResponseError};

#[test]
fn code_zero_is_success() {
    assert_eq!(res_verify("0 OK\n.\n"), Ok(()));
}

#[test]
fn codes_one_to_six_name_their_failures() {
    assert_eq!(res_verify("1 rest of line"), Err(Some(ResponseError::CommandError)));
    assert_eq!(res_verify("2 rest of line"), Err(Some(ResponseError::LoginError)));
    assert_eq!(res_verify("3 rest of line"), Err(Some(ResponseError::DbError)));
    assert_eq!(res_verify("4 rest of line"), Err(Some(ResponseError::IpAddressError)));
    assert_eq!(res_verify("5 rest of line"), Err(Some(ResponseError::NoConnection)));
    assert_eq!(res_verify("6 rest of line"), Err(Some(ResponseError::NotFound)));
}

#[test]
fn other_codes_are_unrecognized() {
    assert_eq!(res_verify("7 rest of line"), Err(None));
    assert_eq!(res_verify("10 rest of line"), Err(None));
    assert_eq!(res_verify("-1 rest of line"), Err(None));
    assert_eq!(res_verify("99999999999999999999999 rest"), Err(None));
}

#[test]
fn a_field_that_is_no_number_is_unrecognized() {
    assert_eq!(res_verify(""), Err(None));
    assert_eq!(res_verify("OK 0\n.\n"), Err(None));
    assert_eq!(res_verify(" 0\n.\n"), Err(None));
    assert_eq!(res_verify("0x1 rest\n.\n"), Err(None));
    assert_eq!(res_verify("+\n.\n"), Err(None));
    assert_eq!(res_verify("-\n.\n"), Err(None));
    assert_eq!(res_verify("1.5 rest\n.\n"), Err(None));
}

#[test]
fn the_code_may_stand_alone_on_its_line() {
    assert_eq!(res_verify("0\n.\n"), Ok(()));
    assert_eq!(res_verify("3\nmore\n.\n"), Err(Some(ResponseError::DbError)));
}

#[test]
fn sign_and_leading_zeros_do_not_change_the_code() {
    assert_eq!(res_verify("+2 bad\n.\n"), Err(Some(ResponseError::LoginError)));
    assert_eq!(res_verify("006 gone\n.\n"), Err(Some(ResponseError::NotFound)));
    assert_eq!(res_verify("-0 fine\n.\n"), Ok(()));
    assert_eq!(res_verify("00000000000000000000000000 fine\n.\n"), Ok(()));
}

#[test]
fn only_the_first_line_counts() {
    assert_eq!(res_verify("x\n0 OK\n.\n"), Err(None));
    assert_eq!(res_verify("5 down\n0 OK\n.\n"), Err(Some(ResponseError::NoConnection)));
}

#[test]
fn failures_have_names_and_descriptions() {
    assert_eq!(ResponseError::CommandError.to_string(), "CommandError");
    assert_eq!(ResponseError::LoginError.to_string(), "LoginError");
    assert_eq!(ResponseError::DbError.to_string(), "DbError");
    assert_eq!(ResponseError::IpAddressError.to_string(), "IpAddressError");
    assert_eq!(ResponseError::NoConnection.to_string(), "NoConnection");
    assert_eq!(ResponseError::NotFound.to_string(), "NotFound");
    assert_eq!(ResponseError::CommandError.description(), "Invalid command");
    assert_eq!(ResponseError::LoginError.description(), "Login failed");
    assert_eq!(ResponseError::DbError.description(), "Database error");
    assert_eq!(ResponseError::IpAddressError.description(), "Invalid ip address");
    assert_eq!(ResponseError::NoConnection.description(), "Connection error");
    assert_eq!(ResponseError::NotFound.description(), "Host or domain name not found");
}
