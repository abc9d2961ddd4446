use rumgap::api::v1::util::verify::{email, password, username, PasswordProblem, ValidationError};

#[test]
fn usernames() {
    assert_eq!(username("  alice_01 "), Ok("alice_01".to_string()));
    assert_eq!(username("abc"), Err(ValidationError::UsernameTooShort));
    assert_eq!(username("  abc  "), Err(ValidationError::UsernameTooShort));
    assert_eq!(username("ali ce"), Err(ValidationError::UsernameCharacters));
    assert_eq!(username("al-ice"), Err(ValidationError::UsernameCharacters));
    assert_eq!(ValidationError::UsernameTooShort.message(), "Username should be at least 4 characters");
    assert_eq!(ValidationError::UsernameCharacters.message(), "Username should only contain [a-zA-Z0-9_]+");
}

#[test]
fn emails() {
    assert_eq!(email(" someone@example.com\t"), Ok("someone@example.com".to_string()));
    assert_eq!(email("not an email"), Err(ValidationError::InvalidEmail));
    assert_eq!(ValidationError::InvalidEmail.message(), "Invalid email");
}

#[test]
fn passwords() {
    assert_eq!(password(" Secret#123 "), Ok("Secret#123".to_string()));
    let weak = password("abc");
    assert_eq!(
        weak,
        Err(ValidationError::WeakPassword(vec![
            PasswordProblem::MissingDigit,
            PasswordProblem::MissingSpecial,
            PasswordProblem::MissingUppercase,
            PasswordProblem::TooShort,
        ]))
    );
    assert_eq!(
        weak.unwrap_err().message(),
        "Missing digit\nMissing special character\nMissing uppercase\nShould be more than 8 characters"
    );
    assert_eq!(password("Abcdefgh1"), Err(ValidationError::WeakPassword(vec![PasswordProblem::MissingSpecial])));
    // eight bytes, counted in UTF-8
    assert_eq!(password("Aé#1xyz"), Ok("Aé#1xyz".to_string()));
}
