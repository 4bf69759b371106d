use vstd::prelude::*;

use crate::ids::fresh_id;

verus! {

/// A registered account: credentials live as an opaque password hash.
#[derive(Debug, Clone, PartialEq, Eq)]
pub struct User {
    pub id: u128,
    pub username: String,
    pub email: String,
    pub password_hash: String,
}

impl User {
    /// A fresh account with a newly drawn identifier.
    pub fn new(username: String, email: String, password_hash: String) -> (u: User)
        ensures
            u.username == username,
            u.email == email,
            u.password_hash == password_hash,
    {
        User { id: fresh_id(), username, email, password_hash }
    }
}

/// The in-memory user store: accounts keyed by username, each name taken
/// at most once.
pub struct UserStore {
    pub users: Vec<User>,
}

impl UserStore {
    /// Usernames name at most one account each.
    pub open spec fn wf(self) -> bool {
        forall|i: int, j: int|
            0 <= i < self.users@.len() && 0 <= j < self.users@.len() && i != j
                ==> self.users@[i].username@ != self.users@[j].username@
    }

    /// Some account carries this username.
    pub open spec fn has_username(self, name: Seq<char>) -> bool {
        exists|i: int| 0 <= i < self.users@.len() && (#[trigger] self.users@[i]).username@ == name
    }

    /// An empty store.
    pub fn new() -> (s: UserStore)
        ensures
            s.users@.len() == 0,
            s.wf(),
    {
        UserStore { users: Vec::new() }
    }

    /// The account with this username, if one is registered.
    pub fn find_user(&self, username: &String) -> (r: Option<&User>)
        ensures
            match r {
                Some(u) => self.has_username(username@) && u.username@ == username@ && exists|i: int|
                    0 <= i < self.users@.len() && self.users@[i] == *u,
                None => !self.has_username(username@),
            },
    {
        let n: usize = self.users.len();
        let mut i: usize = 0;
        while i < n
            invariant
                n == self.users@.len(),
                0 <= i <= n,
                forall|j: int| 0 <= j < i ==> (#[trigger] self.users@[j]).username@ != username@,
            decreases n - i,
        {
            if self.users[i].username == *username {
                proof {
                    assert(self.users@[i as int].username@ == username@);
                }
                return Some(&self.users[i]);
            }
            i = i + 1;
        }
        None
    }

    /// Register an account under a username nobody holds yet.
    pub fn insert_user(&mut self, user: User)
        requires
            old(self).wf(),
            !old(self).has_username(user.username@),
        ensures
            final(self).wf(),
            final(self).users@ == old(self).users@.push(user),
            final(self).has_username(user.username@),
            forall|name: Seq<char>|
                name != user.username@ ==> final(self).has_username(name) == old(
                    self,
                ).has_username(name),
    {
        let ghost s1 = self.users@;
        self.users.push(user);
        proof {
            let n = s1.len() as int;
            assert(self.users@[n] == user);
            assert forall|i: int, j: int|
                0 <= i < self.users@.len() && 0 <= j < self.users@.len() && i != j implies self.users@[i].username@
                != self.users@[j].username@ by {
                if i < n && j < n {
                    assert(self.users@[i] == s1[i]);
                    assert(self.users@[j] == s1[j]);
                } else if i < n {
                    assert(self.users@[i] == s1[i]);
                    if s1[i].username@ == user.username@ {
                        assert(old(self).has_username(user.username@));
                    }
                } else {
                    assert(self.users@[j] == s1[j]);
                    if s1[j].username@ == user.username@ {
                        assert(old(self).has_username(user.username@));
                    }
                }
            }
            assert forall|name: Seq<char>|
                name != user.username@ implies self.has_username(name) == old(self).has_username(
                name,
            ) by {
                if old(self).has_username(name) {
                    let w = choose|w: int| 0 <= w < s1.len() && (#[trigger] s1[w]).username@ == name;
                    assert(self.users@[w].username@ == name);
                }
                if self.has_username(name) {
                    let w = choose|w: int|
                        0 <= w < self.users@.len() && (#[trigger] self.users@[w]).username@ == name;
                    assert(w < n);
                    assert(s1[w].username@ == name);
                }
            }
        }
    }
}

} // verus!
