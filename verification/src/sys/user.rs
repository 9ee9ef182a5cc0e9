//! What users are called.

use crate::num;
use crate::sys::bytes;
use vstd::prelude::*;

verus! {

/// The entry that the system has for the user of the number `uid`, if it has one: its name.
pub struct User {
    pub uid: u32,
    pub name: Option<Vec<u8>>,
}

/// The name of a user: the number itself where the system has no entry for it.
pub open spec fn user_text(uid: nat, name: Option<Seq<u8>>) -> Seq<char> {
    match name {
        Some(b) => bytes::utf8_lossy(b),
        None => num::dec(uid),
    }
}

/// What a user is called, by the first entry for the number.
pub open spec fn user_for(users: Seq<User>, uid: u32) -> Seq<char>
    decreases users.len(),
{
    if users.len() == 0 {
        user_text(uid as nat, None)
    } else if users[0].uid == uid {
        user_text(uid as nat, bytes::opt_bytes(users[0].name))
    } else {
        user_for(users.drop_first(), uid)
    }
}

/// The name of a user, from the name that the system has for the number.
pub fn username(uid: u32, name: &Option<Vec<u8>>) -> (r: String)
    ensures
        r@ == user_text(uid as nat, bytes::opt_bytes(*name)),
{
    match name {
        Some(b) => bytes::lossy(b.as_slice()),
        None => num::to_dec(uid as u64),
    }
}

/// What a user is called.
pub fn user_name(users: &[User], uid: u32) -> (r: String)
    ensures
        r@ == user_for(users@, uid),
{
    assert(users@.skip(0) =~= users@);
    for i in 0..users.len()
        invariant
            user_for(users@, uid) == user_for(users@.skip(i as int), uid),
    {
        let ghost rest = users@.skip(i as int);
        assert(rest[0] == users@[i as int]);
        assert(rest.drop_first() =~= users@.skip(i + 1));
        if users[i].uid == uid {
            return username(uid, &users[i].name);
        }
    }
    username(uid, &None)
}

} // verus!
