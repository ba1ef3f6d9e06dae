use learn_rs::collections::maps::create_users;

#[test]
fn create_users_test() {
    let users = create_users();
    assert_eq!(users.len(), 3);
    let emails: Vec<_> = users.iter().map(|u| u.email.to_string()).collect();
    assert_eq!(emails.len(), 3);
    assert!(emails.contains(&"user1@mail.com".to_string()));
    assert!(emails.contains(&"user2@mail.com".to_string()));
    assert!(emails.contains(&"user3@mail.com".to_string()));
}
