//! A small fixed set of users, used by the map examples.

use vstd::prelude::*;

verus! {

/// A user record.
#[derive(Debug, Clone, PartialEq)]
pub struct User {
    pub email: String,
    pub name: String,
    pub address: String,
    pub age: u8,
}

/// Returns the three sample users, in a fixed order.
pub fn create_users() -> (r: Vec<User>)
    ensures
        r@.len() == 3,
        r@[0].email@ == "user1@mail.com"@,
        r@[0].name@ == "user1"@,
        r@[0].address@ == "address1"@,
        r@[0].age == 21,
        r@[1].email@ == "user3@mail.com"@,
        r@[1].name@ == "user3"@,
        r@[1].address@ == "address3"@,
        r@[1].age == 21,
        r@[2].email@ == "user2@mail.com"@,
        r@[2].name@ == "user2"@,
        r@[2].address@ == "address2"@,
        r@[2].age == 40,
{
    let mut users: Vec<User> = Vec::new();
    users.push(
        User {
            email: "user1@mail.com".to_owned(),
            name: "user1".to_owned(),
            address: "address1".to_owned(),
            age: 21,
        },
    );
    users.push(
        User {
            email: "user3@mail.com".to_owned(),
            name: "user3".to_owned(),
            address: "address3".to_owned(),
            age: 21,
        },
    );
    users.push(
        User {
            email: "user2@mail.com".to_owned(),
            name: "user2".to_owned(),
            address: "address2".to_owned(),
            age: 40,
        },
    );
    users
}

} // verus!
