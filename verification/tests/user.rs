use rumgap::service::user::{LoginColumn, LoginIdentifier, MyUser};

#[test]
fn logins_look_up_lowercase_accounts() {
    let by_name = MyUser::login_lookup(&LoginIdentifier::Username("Some_User".to_string()));
    assert_eq!(by_name.column, LoginColumn::Username);
    assert_eq!(by_name.value, "some_user");
    let by_mail = MyUser::login_lookup(&LoginIdentifier::Email("Me@Example.COM".to_string()));
    assert_eq!(by_mail.column, LoginColumn::Email);
    assert_eq!(by_mail.value, "me@example.com");
    let accented = MyUser::login_lookup(&LoginIdentifier::Username("ÉCOLE".to_string()));
    assert_eq!(accented.value, "\u{c9}cole", "only ASCII letters change case");
}
