use ksox_fraction::auth::{AuthError, Claims};

fn claims(exp: usize) -> Claims {
    Claims { sub: "user".to_string(), exp }
}

#[test]
fn refusals_are_answered() {
    assert_eq!(AuthError::WrongCredentials.response_parts(), (401, "Wrong credentials"));
    assert_eq!(AuthError::InvalidToken.response_parts(), (400, "Invalid token"));
}

#[test]
fn expiry_is_checked() {
    assert_eq!(claims(100).check_expiry(99), Ok(claims(100)));
    assert_eq!(claims(100).check_expiry(100), Err(AuthError::WrongCredentials));
    assert_eq!(claims(100).check_expiry(101), Err(AuthError::WrongCredentials));
    assert_eq!(claims(100).check_expiry(-1), Err(AuthError::WrongCredentials));
}
