//! The mail store: accounts, live sessions and mail records, together with
//! every operation that creates, queries or changes them. All entity ids are
//! drawn from one shared id space; each freshly issued id is checked against
//! every id already in use, so ids are globally unique at all times.

use vstd::prelude::*;
use vstd::set_lib::{lemma_int_range, lemma_len_subset, lemma_len_union, set_int_range};

verus! {

pub type SessionId = i32;

pub type UserId = i32;

pub type MailId = i32;

/// One live authenticated login, bound to the account it was opened for.
pub struct Session {
    pub id: SessionId,
    pub user_id: UserId,
}

/// A registered account. The username is unique across the store and never
/// changes; the password is stored verbatim and compared verbatim.
pub struct User {
    pub id: UserId,
    pub username: String,
    pub password: String,
}

/// A message record. The read flag starts false and only ever flips to true.
pub struct Mail {
    pub id: MailId,
    pub sender: UserId,
    pub recipient: UserId,
    pub subject: String,
    pub content: String,
    pub is_read: bool,
}

#[derive(Debug, Clone, Copy, PartialEq, Eq)]
pub enum LoginError {
    UserDoesntExist,
    WrongPassword,
}

#[derive(Debug, Clone, Copy, PartialEq, Eq)]
pub enum RegisterError {
    UserAlreadyExists,
}

/// Returned where an operation was handed a session id that no live session
/// carries; a recoverable error rather than a fatal one.
#[derive(Debug, Clone, Copy, PartialEq, Eq)]
pub enum SessionError {
    SessionNotFound,
}

/// Display metadata for one mail: the sender is resolved to a username.
pub struct MailInfo {
    pub id: MailId,
    pub sender: String,
    pub subject: String,
}

/// The store itself: sole owner of all accounts, sessions and mails.
pub struct MailApp {
    pub users: Vec<User>,
    pub sessions: Vec<Session>,
    pub mails: Vec<Mail>,
}

impl Session {
    pub fn new(id: SessionId, user_id: UserId) -> (s: Session)
        ensures
            s.id == id,
            s.user_id == user_id,
    {
        Session { id, user_id }
    }
}

impl User {
    pub fn new(id: UserId, username: String, password: String) -> (u: User)
        ensures
            u.id == id,
            u.username == username,
            u.password == password,
    {
        User { id, username, password }
    }
}

impl Mail {
    pub fn new(id: MailId, sender: UserId, recipient: UserId, subject: String, content: String) -> (m: Mail)
        ensures
            m.id == id,
            m.sender == sender,
            m.recipient == recipient,
            m.subject == subject,
            m.content == content,
            m.is_read == false,
    {
        Mail { id, sender, recipient, subject, content, is_read: false }
    }
}

/// Some account in `users` carries the username `name`.
pub open spec fn has_user_named(users: Seq<User>, name: Seq<char>) -> bool {
    exists|i: int| 0 <= i < users.len() && users[i].username@ == name
}

/// The account carrying the username `name`; meaningful only where
/// `has_user_named` holds and usernames are unique.
pub open spec fn user_named(users: Seq<User>, name: Seq<char>) -> User {
    users[choose|i: int| 0 <= i < users.len() && users[i].username@ == name]
}

/// Some account in `users` carries the id `uid`.
pub open spec fn has_user_id(users: Seq<User>, uid: UserId) -> bool {
    exists|i: int| 0 <= i < users.len() && users[i].id == uid
}

/// The account carrying the id `uid`; meaningful only where `has_user_id`
/// holds and ids are unique.
pub open spec fn user_with_id(users: Seq<User>, uid: UserId) -> User {
    users[choose|i: int| 0 <= i < users.len() && users[i].id == uid]
}

/// Some live session in `sessions` carries the id `sid`.
pub open spec fn has_session_id(sessions: Seq<Session>, sid: SessionId) -> bool {
    exists|i: int| 0 <= i < sessions.len() && sessions[i].id == sid
}

/// The account id that the live session `sid` is bound to; meaningful only
/// where `has_session_id` holds and session ids are unique.
pub open spec fn session_user(sessions: Seq<Session>, sid: SessionId) -> UserId {
    sessions[choose|i: int| 0 <= i < sessions.len() && sessions[i].id == sid].user_id
}

/// Some mail in `mails` carries the id `mid`.
pub open spec fn has_mail_id(mails: Seq<Mail>, mid: MailId) -> bool {
    exists|i: int| 0 <= i < mails.len() && mails[i].id == mid
}

/// The mail carrying the id `mid`; meaningful only where `has_mail_id` holds
/// and mail ids are unique.
pub open spec fn mail_with_id(mails: Seq<Mail>, mid: MailId) -> Mail {
    mails[choose|i: int| 0 <= i < mails.len() && mails[i].id == mid]
}

/// The ids of all mail addressed to the account `uid`, in store order.
pub open spec fn mail_ids_to(mails: Seq<Mail>, uid: UserId) -> Seq<MailId>
    decreases mails.len(),
{
    if mails.len() == 0 {
        Seq::empty()
    } else if mails.last().recipient == uid {
        mail_ids_to(mails.drop_last(), uid).push(mails.last().id)
    } else {
        mail_ids_to(mails.drop_last(), uid)
    }
}

/// The ids of all unread mail addressed to the account `uid`, in store order.
pub open spec fn unread_mail_ids_to(mails: Seq<Mail>, uid: UserId) -> Seq<MailId>
    decreases mails.len(),
{
    if mails.len() == 0 {
        Seq::empty()
    } else if mails.last().recipient == uid && !mails.last().is_read {
        unread_mail_ids_to(mails.drop_last(), uid).push(mails.last().id)
    } else {
        unread_mail_ids_to(mails.drop_last(), uid)
    }
}

/// `mails` with every mail carrying the id `mid` marked read; all other
/// fields, and all other mails, are untouched.
pub open spec fn mark_read(mails: Seq<Mail>, mid: MailId) -> Seq<Mail> {
    Seq::new(
        mails.len(),
        |i: int|
            if mails[i].id == mid {
                Mail { is_read: true, ..mails[i] }
            } else {
                mails[i]
            },
    )
}

impl MailApp {
    /// Well-formedness of the store: ids are unique within each collection,
    /// usernames are unique, every session is bound to an existing account,
    /// and every mail's sender and recipient are existing accounts.
    pub open spec fn wf(self) -> bool {
        &&& forall|i: int, j: int| #![auto] 0 <= i < j < self.users@.len()
            ==> self.users@[i].id != self.users@[j].id
                && self.users@[i].username@ != self.users@[j].username@
        &&& forall|i: int, j: int| #![auto] 0 <= i < j < self.sessions@.len()
            ==> self.sessions@[i].id != self.sessions@[j].id
        &&& forall|i: int, j: int| #![auto] 0 <= i < j < self.mails@.len()
            ==> self.mails@[i].id != self.mails@[j].id
        &&& forall|i: int| #![auto] 0 <= i < self.sessions@.len()
            ==> has_user_id(self.users@, self.sessions@[i].user_id)
        &&& forall|i: int| #![auto] 0 <= i < self.mails@.len()
            ==> has_user_id(self.users@, self.mails@[i].sender)
                && has_user_id(self.users@, self.mails@[i].recipient)
    }

    /// The id `id` is carried by some account, live session or mail.
    pub open spec fn id_used(self, id: i32) -> bool {
        ||| has_user_id(self.users@, id)
        ||| has_session_id(self.sessions@, id)
        ||| has_mail_id(self.mails@, id)
    }

    /// Every id in use, as a set of integers.
    pub open spec fn used_id_set(self) -> Set<int> {
        self.users@.map_values(|u: User| u.id as int).to_set()
            .union(self.sessions@.map_values(|s: Session| s.id as int).to_set())
            .union(self.mails@.map_values(|m: Mail| m.id as int).to_set())
    }

    /// How many entities the store holds in all.
    pub open spec fn total_entities(self) -> int {
        self.users@.len() + self.sessions@.len() + self.mails@.len() as int
    }

    /// The shared id space is 32 bits wide, so a fresh id can only be
    /// guaranteed while fewer entities exist than there are non-negative
    /// ids; a machine limit, unreachable in practice.
    pub open spec fn has_room(self) -> bool {
        self.total_entities() < i32::MAX
    }

    proof fn lemma_id_used_in_set(self, id: i32)
        requires
            self.id_used(id),
        ensures
            self.used_id_set().contains(id as int),
    {
        broadcast use vstd::seq_lib::group_seq_properties;

        if has_user_id(self.users@, id) {
            let i = choose|i: int| 0 <= i < self.users@.len() && self.users@[i].id == id;
            let ids = self.users@.map_values(|u: User| u.id as int);
            assert(ids[i] == id as int);
            assert(ids.contains(id as int));
        } else if has_session_id(self.sessions@, id) {
            let i = choose|i: int| 0 <= i < self.sessions@.len() && self.sessions@[i].id == id;
            let ids = self.sessions@.map_values(|s: Session| s.id as int);
            assert(ids[i] == id as int);
            assert(ids.contains(id as int));
        } else {
            let i = choose|i: int| 0 <= i < self.mails@.len() && self.mails@[i].id == id;
            let ids = self.mails@.map_values(|m: Mail| m.id as int);
            assert(ids[i] == id as int);
            assert(ids.contains(id as int));
        }
    }

    proof fn lemma_used_id_set_small(self)
        ensures
            self.used_id_set().finite(),
            self.used_id_set().len() <= self.total_entities(),
    {
        broadcast use vstd::seq_lib::seq_to_set_is_finite;

        let u = self.users@.map_values(|u: User| u.id as int);
        let s = self.sessions@.map_values(|s: Session| s.id as int);
        let m = self.mails@.map_values(|m: Mail| m.id as int);
        u.lemma_cardinality_of_set();
        s.lemma_cardinality_of_set();
        m.lemma_cardinality_of_set();
        lemma_len_union(u.to_set(), s.to_set());
        lemma_len_union(u.to_set().union(s.to_set()), m.to_set());
    }

    /// Relies on `rand::random`: some 32-bit integer comes back; nothing is
    /// promised of its value.
    #[verifier::external_body]
    fn random_candidate() -> i32 {
        rand::random()
    }

    fn id_in_use(&self, id: i32) -> (r: bool)
        ensures
            r == self.id_used(id),
    {
        let mut i: usize = 0;
        while i < self.users.len()
            invariant
                i <= self.users@.len(),
                forall|k: int| 0 <= k < i ==> self.users@[k].id != id,
            decreases self.users@.len() - i,
        {
            if self.users[i].id == id {
                return true;
            }
            i += 1;
        }
        let mut i: usize = 0;
        while i < self.sessions.len()
            invariant
                i <= self.sessions@.len(),
                forall|k: int| 0 <= k < i ==> self.sessions@[k].id != id,
            decreases self.sessions@.len() - i,
        {
            if self.sessions[i].id == id {
                return true;
            }
            i += 1;
        }
        let mut i: usize = 0;
        while i < self.mails.len()
            invariant
                i <= self.mails@.len(),
                forall|k: int| 0 <= k < i ==> self.mails@[k].id != id,
            decreases self.mails@.len() - i,
        {
            if self.mails[i].id == id {
                return true;
            }
            i += 1;
        }
        false
    }

    /// An id no current entity carries: a random draw is taken when free,
    /// else the smallest free non-negative id. With fewer entities than
    /// non-negative ids, such an id always exists.
    fn fresh_id(&self) -> (id: i32)
        requires
            self.has_room(),
        ensures
            !self.id_used(id),
    {
        let candidate = Self::random_candidate();
        if !self.id_in_use(candidate) {
            return candidate;
        }
        let mut c: i32 = 0;
        proof {
            self.lemma_used_id_set_small();
            lemma_int_range(0, 0);
            assert(set_int_range(0, 0).subset_of(self.used_id_set()));
        }
        loop
            invariant
                self.has_room(),
                0 <= c,
                c as int <= self.total_entities(),
                set_int_range(0, c as int).subset_of(self.used_id_set()),
            decreases self.total_entities() - c,
        {
            if !self.id_in_use(c) {
                return c;
            }
            proof {
                self.lemma_id_used_in_set(c);
                self.lemma_used_id_set_small();
                assert(set_int_range(0, c as int + 1) =~= set_int_range(0, c as int).insert(
                    c as int,
                ));
                assert(set_int_range(0, c as int + 1).subset_of(self.used_id_set()));
                lemma_int_range(0, c as int + 1);
                lemma_len_subset(set_int_range(0, c as int + 1), self.used_id_set());
                assert(c as int + 1 <= self.total_entities());
            }
            c += 1;
        }
    }

    /// Creates a store holding the two demonstration accounts and no
    /// sessions or mails.
    pub fn new() -> (app: MailApp)
        ensures
            app.wf(),
            app.users@.len() == 2,
            app.users@[0].username@ == "user1"@,
            app.users@[0].password@ == "1234"@,
            app.users@[1].username@ == "user2"@,
            app.users@[1].password@ == "1234"@,
            app.users@[0].id != app.users@[1].id,
            app.sessions@.len() == 0,
            app.mails@.len() == 0,
    {
        let mut app = MailApp { users: Vec::new(), sessions: Vec::new(), mails: Vec::new() };
        proof {
            reveal_strlit("user1");
            reveal_strlit("user2");
        }
        let r1 = app.register("user1".to_owned(), "1234".to_owned());
        proof {
            assert(r1 is Ok);
            assert(app.users@[0] == app.users@.last());
            assert("user1"@[4] != "user2"@[4]);
        }
        let r2 = app.register("user2".to_owned(), "1234".to_owned());
        proof {
            assert(r2 is Ok);
        }
        app
    }

    /// Creates an account with a fresh id and the given credentials, unless
    /// the username is already taken; nothing else changes either way.
    pub fn register(&mut self, username: String, password: String) -> (r: Result<(), RegisterError>)
        requires
            old(self).wf(),
            old(self).has_room(),
        ensures
            final(self).wf(),
            final(self).sessions@ == old(self).sessions@,
            final(self).mails@ == old(self).mails@,
            r is Ok <==> !old(self).has_username(username@),
            match r {
                Ok(()) => {
                    &&& final(self).users@.len() == old(self).users@.len() + 1
                    &&& final(self).users@.drop_last() == old(self).users@
                    &&& final(self).users@.last().username == username
                    &&& final(self).users@.last().password == password
                    &&& !old(self).id_used(final(self).users@.last().id)
                },
                Err(RegisterError::UserAlreadyExists) => *final(self) == *old(self),
            },
    {
        match self.find_user_by_name(&username) {
            Some(_) => Err(RegisterError::UserAlreadyExists),
            None => {
                let id = self.fresh_id();
                let ghost pre = *self;
                self.users.push(User::new(id, username, password));
                proof {
                    assert(self.users@.drop_last() =~= pre.users@);
                    assert forall|i: int| 0 <= i < self.sessions@.len() implies has_user_id(
                        self.users@,
                        self.sessions@[i].user_id,
                    ) by {
                        lemma_user_set_grows(pre.users@, self.users@, self.sessions@[i].user_id);
                    }
                    assert forall|i: int| 0 <= i < self.mails@.len() implies has_user_id(
                        self.users@,
                        self.mails@[i].sender,
                    ) && has_user_id(self.users@, self.mails@[i].recipient) by {
                        lemma_user_set_grows(pre.users@, self.users@, self.mails@[i].sender);
                        lemma_user_set_grows(pre.users@, self.users@, self.mails@[i].recipient);
                    }
                }
                Ok(())
            },
        }
    }

    /// Some account carries the username `name`.
    pub open spec fn has_username(self, name: Seq<char>) -> bool {
        has_user_named(self.users@, name)
    }

    /// Some live session carries the id `sid`.
    pub open spec fn has_session(self, sid: SessionId) -> bool {
        has_session_id(self.sessions@, sid)
    }

    /// Looks up the account by username and compares the password; on a
    /// match a new session bound to that account is created and its fresh
    /// id returned. Each successful login yields an independent session.
    pub fn login(&mut self, username: String, password: String) -> (r: Result<
        SessionId,
        LoginError,
    >)
        requires
            old(self).wf(),
            old(self).has_room(),
        ensures
            final(self).wf(),
            final(self).users@ == old(self).users@,
            final(self).mails@ == old(self).mails@,
            r is Ok <==> old(self).has_username(username@) && user_named(
                old(self).users@,
                username@,
            ).password@ == password@,
            match r {
                Ok(sid) => {
                    &&& final(self).sessions@.len() == old(self).sessions@.len() + 1
                    &&& final(self).sessions@.drop_last() == old(self).sessions@
                    &&& final(self).sessions@.last().id == sid
                    &&& final(self).sessions@.last().user_id == user_named(
                        old(self).users@,
                        username@,
                    ).id
                    &&& !old(self).id_used(sid)
                },
                Err(LoginError::UserDoesntExist) => !old(self).has_username(username@)
                    && *final(self) == *old(self),
                Err(LoginError::WrongPassword) => old(self).has_username(username@)
                    && user_named(old(self).users@, username@).password@ != password@
                    && *final(self) == *old(self),
            },
    {
        match self.find_user_by_name(&username) {
            None => Err(LoginError::UserDoesntExist),
            Some(i) => {
                proof {
                    lemma_user_named_unique(*self, username@, i as int);
                }
                if self.users[i].password == password {
                    let sid = self.fresh_id();
                    let uid = self.users[i].id;
                    let ghost pre = *self;
                    self.sessions.push(Session::new(sid, uid));
                    proof {
                        assert(self.sessions@.drop_last() =~= pre.sessions@);
                    }
                    Ok(sid)
                } else {
                    Err(LoginError::WrongPassword)
                }
            },
        }
    }

    /// Removes the session if it is live; handing in an unknown session id
    /// is a recoverable error, not a fatal one.
    #[verifier::loop_isolation(false)]
    pub fn logout(&mut self, session_id: SessionId) -> (r: Result<(), SessionError>)
        requires
            old(self).wf(),
        ensures
            final(self).wf(),
            final(self).users@ == old(self).users@,
            final(self).mails@ == old(self).mails@,
            r is Ok <==> old(self).has_session(session_id),
            match r {
                Ok(()) => exists|i: int|
                    0 <= i < old(self).sessions@.len() && old(self).sessions@[i].id == session_id
                        && final(self).sessions@ == old(self).sessions@.remove(i),
                Err(SessionError::SessionNotFound) => *final(self) == *old(self),
            },
    {
        let mut i: usize = 0;
        while i < self.sessions.len()
            invariant
                *self == *old(self),
                i <= self.sessions@.len(),
                forall|k: int| 0 <= k < i ==> self.sessions@[k].id != session_id,
            decreases self.sessions@.len() - i,
        {
            if self.sessions[i].id == session_id {
                let ghost pre = *self;
                self.sessions.remove(i);
                proof {
                    pre.sessions@.remove_ensures(i as int);
                    assert forall|a: int, b: int| 0 <= a < b < self.sessions@.len() implies
                    self.sessions@[a].id != self.sessions@[b].id by {
                        assert(self.sessions@[a] == if a < i as int {
                            pre.sessions@[a]
                        } else {
                            pre.sessions@[a + 1]
                        });
                        assert(self.sessions@[b] == if b < i as int {
                            pre.sessions@[b]
                        } else {
                            pre.sessions@[b + 1]
                        });
                    }
                    assert forall|a: int| 0 <= a < self.sessions@.len() implies has_user_id(
                        self.users@,
                        self.sessions@[a].user_id,
                    ) by {
                        assert(self.sessions@[a] == if a < i as int {
                            pre.sessions@[a]
                        } else {
                            pre.sessions@[a + 1]
                        });
                    }
                }
                return Ok(());
            }
            i += 1;
        }
        Err(SessionError::SessionNotFound)
    }

    /// The account id that a live session is bound to, or nothing for an
    /// unknown session id.
    #[verifier::loop_isolation(false)]
    pub fn user_id_by_session_id(&self, session_id: SessionId) -> (r: Option<UserId>)
        requires
            self.wf(),
        ensures
            r is Some <==> self.has_session(session_id),
            match r {
                Some(uid) => uid == session_user(self.sessions@, session_id),
                None => !self.has_session(session_id),
            },
    {
        let mut i: usize = 0;
        while i < self.sessions.len()
            invariant
                i <= self.sessions@.len(),
                forall|k: int| 0 <= k < i ==> self.sessions@[k].id != session_id,
            decreases self.sessions@.len() - i,
        {
            if self.sessions[i].id == session_id {
                proof {
                    lemma_session_user_unique(*self, session_id, i as int);
                }
                return Some(self.sessions[i].user_id);
            }
            i += 1;
        }
        None
    }

    /// The username of the account with the given id, or nothing if no
    /// account carries it.
    #[verifier::loop_isolation(false)]
    pub fn username_by_user_id(&self, user_id: UserId) -> (r: Option<String>)
        requires
            self.wf(),
        ensures
            r is Some <==> has_user_id(self.users@, user_id),
            match r {
                Some(name) => name@ == user_with_id(self.users@, user_id).username@,
                None => !has_user_id(self.users@, user_id),
            },
    {
        let mut i: usize = 0;
        while i < self.users.len()
            invariant
                i <= self.users@.len(),
                forall|k: int| 0 <= k < i ==> self.users@[k].id != user_id,
            decreases self.users@.len() - i,
        {
            if self.users[i].id == user_id {
                proof {
                    lemma_user_with_id_unique(*self, user_id, i as int);
                }
                return Some(self.users[i].username.clone());
            }
            i += 1;
        }
        None
    }

    fn find_user_by_name(&self, name: &String) -> (r: Option<usize>)
        ensures
            match r {
                Some(i) => i < self.users@.len() && self.users@[i as int].username@ == name@,
                None => !self.has_username(name@),
            },
            r is Some <==> self.has_username(name@),
    {
        let mut i: usize = 0;
        while i < self.users.len()
            invariant
                i <= self.users@.len(),
                forall|k: int| 0 <= k < i ==> self.users@[k].username@ != name@,
            decreases self.users@.len() - i,
        {
            if self.users[i].username == *name {
                return Some(i);
            }
            i += 1;
        }
        None
    }

    /// The ids of all mail addressed to the session's account, in store
    /// order; an unknown session id is a recoverable error.
    #[verifier::loop_isolation(false)]
    pub fn list_mails(&self, session_id: SessionId) -> (r: Result<Vec<MailId>, SessionError>)
        requires
            self.wf(),
        ensures
            r is Ok <==> self.has_session(session_id),
            match r {
                Ok(ids) => ids@ == mail_ids_to(
                    self.mails@,
                    session_user(self.sessions@, session_id),
                ),
                Err(SessionError::SessionNotFound) => !self.has_session(session_id),
            },
    {
        let uid = match self.user_id_by_session_id(session_id) {
            Some(uid) => uid,
            None => {
                return Err(SessionError::SessionNotFound);
            },
        };
        let mut ids: Vec<MailId> = Vec::new();
        let mut i: usize = 0;
        while i < self.mails.len()
            invariant
                i <= self.mails@.len(),
                ids@ == mail_ids_to(self.mails@.take(i as int), uid),
            decreases self.mails@.len() - i,
        {
            proof {
                assert(self.mails@.take(i as int + 1).drop_last() =~= self.mails@.take(i as int));
                assert(self.mails@.take(i as int + 1).last() == self.mails@[i as int]);
            }
            if self.mails[i].recipient == uid {
                ids.push(self.mails[i].id);
            }
            i += 1;
        }
        proof {
            assert(self.mails@.take(self.mails@.len() as int) =~= self.mails@);
        }
        Ok(ids)
    }

    /// As `list_mails`, restricted to mail whose read flag is still false.
    #[verifier::loop_isolation(false)]
    pub fn list_unread_mails(&self, session_id: SessionId) -> (r: Result<
        Vec<MailId>,
        SessionError,
    >)
        requires
            self.wf(),
        ensures
            r is Ok <==> self.has_session(session_id),
            match r {
                Ok(ids) => ids@ == unread_mail_ids_to(
                    self.mails@,
                    session_user(self.sessions@, session_id),
                ),
                Err(SessionError::SessionNotFound) => !self.has_session(session_id),
            },
    {
        let uid = match self.user_id_by_session_id(session_id) {
            Some(uid) => uid,
            None => {
                return Err(SessionError::SessionNotFound);
            },
        };
        let mut ids: Vec<MailId> = Vec::new();
        let mut i: usize = 0;
        while i < self.mails.len()
            invariant
                i <= self.mails@.len(),
                ids@ == unread_mail_ids_to(self.mails@.take(i as int), uid),
            decreases self.mails@.len() - i,
        {
            proof {
                assert(self.mails@.take(i as int + 1).drop_last() =~= self.mails@.take(i as int));
                assert(self.mails@.take(i as int + 1).last() == self.mails@[i as int]);
            }
            if self.mails[i].recipient == uid && !self.mails[i].is_read {
                ids.push(self.mails[i].id);
            }
            i += 1;
        }
        proof {
            assert(self.mails@.take(self.mails@.len() as int) =~= self.mails@);
        }
        Ok(ids)
    }

    /// Display metadata for one mail, with the sender resolved to a
    /// username, or nothing for an unknown id. The read state is untouched.
    #[verifier::loop_isolation(false)]
    pub fn mail_info(&self, mail_id: MailId) -> (r: Option<MailInfo>)
        requires
            self.wf(),
        ensures
            r is Some <==> has_mail_id(self.mails@, mail_id),
            match r {
                Some(info) => {
                    &&& info.id == mail_id
                    &&& info.subject@ == mail_with_id(self.mails@, mail_id).subject@
                    &&& info.sender@ == user_with_id(
                        self.users@,
                        mail_with_id(self.mails@, mail_id).sender,
                    ).username@
                },
                None => !has_mail_id(self.mails@, mail_id),
            },
    {
        let mut i: usize = 0;
        while i < self.mails.len()
            invariant
                i <= self.mails@.len(),
                forall|k: int| 0 <= k < i ==> self.mails@[k].id != mail_id,
            decreases self.mails@.len() - i,
        {
            if self.mails[i].id == mail_id {
                proof {
                    lemma_mail_with_id_unique(*self, mail_id, i as int);
                }
                let sender_name = match self.username_by_user_id(self.mails[i].sender) {
                    Some(name) => name,
                    None => {
                        proof {
                            assert(false);
                        }
                        String::new()
                    },
                };
                return Some(
                    MailInfo {
                        id: self.mails[i].id,
                        sender: sender_name,
                        subject: self.mails[i].subject.clone(),
                    },
                );
            }
            i += 1;
        }
        None
    }

    /// If the mail exists, marks it read (permanently; reading again is
    /// safe) and hands back its body; otherwise nothing, and nothing
    /// changes.
    #[verifier::loop_isolation(false)]
    pub fn read_mail(&mut self, mail_id: MailId) -> (r: Option<String>)
        requires
            old(self).wf(),
        ensures
            final(self).wf(),
            final(self).users@ == old(self).users@,
            final(self).sessions@ == old(self).sessions@,
            final(self).mails@ == mark_read(old(self).mails@, mail_id),
            r is Some <==> has_mail_id(old(self).mails@, mail_id),
            match r {
                Some(body) => body@ == mail_with_id(old(self).mails@, mail_id).content@,
                None => *final(self) == *old(self),
            },
    {
        let mut i: usize = 0;
        while i < self.mails.len()
            invariant
                *self == *old(self),
                i <= self.mails@.len(),
                forall|k: int| 0 <= k < i ==> self.mails@[k].id != mail_id,
            decreases self.mails@.len() - i,
        {
            if self.mails[i].id == mail_id {
                proof {
                    lemma_mail_with_id_unique(*self, mail_id, i as int);
                }
                let ghost pre = *self;
                self.mails[i].is_read = true;
                let body = self.mails[i].content.clone();
                proof {
                    assert forall|k: int| 0 <= k < self.mails@.len() implies self.mails@[k]
                        == mark_read(pre.mails@, mail_id)[k] by {
                        if k != i as int {
                            if k < i as int {
                                assert(pre.mails@[k].id != pre.mails@[i as int].id);
                            } else {
                                assert(pre.mails@[i as int].id != pre.mails@[k].id);
                            }
                        }
                    }
                    assert(self.mails@ =~= mark_read(pre.mails@, mail_id));
                }
                return Some(body);
            }
            i += 1;
        }
        proof {
            assert(mark_read(self.mails@, mail_id) =~= self.mails@);
        }
        None
    }

    /// Resolves the session to the sending account and the recipient
    /// username to the receiving account, then stores a fresh unread mail;
    /// a recipient username with no account silently drops the send. An
    /// unknown session id is a recoverable error.
    pub fn write_mail(
        &mut self,
        session_id: SessionId,
        recipient: String,
        subject: String,
        content: String,
    ) -> (r: Result<(), SessionError>)
        requires
            old(self).wf(),
            old(self).has_room(),
        ensures
            final(self).wf(),
            final(self).users@ == old(self).users@,
            final(self).sessions@ == old(self).sessions@,
            r is Ok <==> old(self).has_session(session_id),
            match r {
                Ok(()) => if old(self).has_username(recipient@) {
                    &&& final(self).mails@.len() == old(self).mails@.len() + 1
                    &&& final(self).mails@.drop_last() == old(self).mails@
                    &&& final(self).mails@.last().sender == session_user(
                        old(self).sessions@,
                        session_id,
                    )
                    &&& final(self).mails@.last().recipient == user_named(
                        old(self).users@,
                        recipient@,
                    ).id
                    &&& final(self).mails@.last().subject == subject
                    &&& final(self).mails@.last().content == content
                    &&& final(self).mails@.last().is_read == false
                    &&& !old(self).id_used(final(self).mails@.last().id)
                } else {
                    final(self).mails@ == old(self).mails@
                },
                Err(SessionError::SessionNotFound) => *final(self) == *old(self),
            },
    {
        let sender = match self.user_id_by_session_id(session_id) {
            Some(uid) => uid,
            None => {
                return Err(SessionError::SessionNotFound);
            },
        };
        proof {
            let j = choose|j: int|
                0 <= j < self.sessions@.len() && self.sessions@[j].id == session_id;
            assert(has_user_id(self.users@, self.sessions@[j].user_id));
        }
        match self.find_user_by_name(&recipient) {
            Some(ri) => {
                proof {
                    lemma_user_named_unique(*self, recipient@, ri as int);
                }
                let rid = self.users[ri].id;
                let id = self.fresh_id();
                let ghost pre = *self;
                self.mails.push(Mail::new(id, sender, rid, subject, content));
                proof {
                    assert(self.mails@.drop_last() =~= pre.mails@);
                    assert forall|a: int| 0 <= a < self.mails@.len() implies has_user_id(
                        self.users@,
                        self.mails@[a].sender,
                    ) && has_user_id(self.users@, self.mails@[a].recipient) by {
                        if a < pre.mails@.len() {
                            assert(self.mails@[a] == pre.mails@[a]);
                        }
                    }
                }
                Ok(())
            },
            None => Ok(()),
        }
    }
}

/// With unique mail ids, any index carrying the id `mid` is the one that
/// `mail_with_id` denotes.
proof fn lemma_mail_with_id_unique(app: MailApp, mid: MailId, i: int)
    requires
        app.wf(),
        0 <= i < app.mails@.len(),
        app.mails@[i].id == mid,
    ensures
        mail_with_id(app.mails@, mid) == app.mails@[i],
{
    assert(has_mail_id(app.mails@, mid));
    let j = choose|j: int| 0 <= j < app.mails@.len() && app.mails@[j].id == mid;
    if i < j {
        assert(app.mails@[i].id != app.mails@[j].id);
    } else if j < i {
        assert(app.mails@[j].id != app.mails@[i].id);
    }
}

/// With unique usernames, any index carrying the username `name` is the one
/// that `user_named` denotes.
proof fn lemma_user_named_unique(app: MailApp, name: Seq<char>, i: int)
    requires
        app.wf(),
        0 <= i < app.users@.len(),
        app.users@[i].username@ == name,
    ensures
        user_named(app.users@, name) == app.users@[i],
{
    assert(has_user_named(app.users@, name));
    let j = choose|j: int| 0 <= j < app.users@.len() && app.users@[j].username@ == name;
    if i < j {
        assert(app.users@[i].username@ != app.users@[j].username@);
    } else if j < i {
        assert(app.users@[j].username@ != app.users@[i].username@);
    }
}

/// With unique account ids, any index carrying the id `uid` is the one that
/// `user_with_id` denotes.
proof fn lemma_user_with_id_unique(app: MailApp, uid: UserId, i: int)
    requires
        app.wf(),
        0 <= i < app.users@.len(),
        app.users@[i].id == uid,
    ensures
        user_with_id(app.users@, uid) == app.users@[i],
{
    assert(has_user_id(app.users@, uid));
    let j = choose|j: int| 0 <= j < app.users@.len() && app.users@[j].id == uid;
    if i < j {
        assert(app.users@[i].id != app.users@[j].id);
    } else if j < i {
        assert(app.users@[j].id != app.users@[i].id);
    }
}

/// With unique session ids, any index carrying the id `sid` is the one that
/// `session_user` reads its account from.
proof fn lemma_session_user_unique(app: MailApp, sid: SessionId, i: int)
    requires
        app.wf(),
        0 <= i < app.sessions@.len(),
        app.sessions@[i].id == sid,
    ensures
        session_user(app.sessions@, sid) == app.sessions@[i].user_id,
{
    assert(has_session_id(app.sessions@, sid));
    let j = choose|j: int| 0 <= j < app.sessions@.len() && app.sessions@[j].id == sid;
    if i < j {
        assert(app.sessions@[i].id != app.sessions@[j].id);
    } else if j < i {
        assert(app.sessions@[j].id != app.sessions@[i].id);
    }
}

/// Registering a username makes it present: after a successful
/// registration the account collection ends in a user carrying that name,
/// so by `register`'s contract a second registration of the same name must
/// fail with `UserAlreadyExists` and leave the store unchanged.
pub proof fn lemma_registered_username_taken(users: Seq<User>, u: User)
    ensures
        has_user_named(users.push(u), u.username@),
{
    assert(users.push(u)[users.len() as int] == u);
}

/// A session id that no entity carried before a login differs from the id
/// of every session that already existed: each successful login yields a
/// session id distinct from all previously issued live ones.
pub proof fn lemma_fresh_session_id_distinct(app: MailApp, sid: SessionId)
    requires
        !app.id_used(sid),
    ensures
        forall|i: int| #![auto] 0 <= i < app.sessions@.len() ==> app.sessions@[i].id != sid,
{
}

/// A mail appended for recipient `uid` appears at the end of both the full
/// and the unread listing for `uid`, and the rest of each listing is
/// exactly what it was.
pub proof fn lemma_new_mail_listed(mails: Seq<Mail>, m: Mail, uid: UserId)
    requires
        m.recipient == uid,
        !m.is_read,
    ensures
        mail_ids_to(mails.push(m), uid) == mail_ids_to(mails, uid).push(m.id),
        unread_mail_ids_to(mails.push(m), uid) == unread_mail_ids_to(mails, uid).push(m.id),
{
    assert(mails.push(m).drop_last() =~= mails);
}

/// Marking a mail read never changes the full listing; the marked id is
/// gone from the unread listing, while every other id stays in it exactly
/// as before.
pub proof fn lemma_read_mail_listing(mails: Seq<Mail>, mid: MailId, uid: UserId)
    ensures
        mail_ids_to(mark_read(mails, mid), uid) == mail_ids_to(mails, uid),
        !unread_mail_ids_to(mark_read(mails, mid), uid).contains(mid),
        forall|x: MailId|
            x != mid ==> (unread_mail_ids_to(mark_read(mails, mid), uid).contains(x)
                <==> unread_mail_ids_to(mails, uid).contains(x)),
    decreases mails.len(),
{
    broadcast use vstd::seq_lib::lemma_seq_contains_after_push;

    if mails.len() == 0 {
        assert(mark_read(mails, mid) =~= mails);
    } else {
        let marked = mark_read(mails, mid);
        lemma_read_mail_listing(mails.drop_last(), mid, uid);
        assert(marked.drop_last() =~= mark_read(mails.drop_last(), mid));
        assert(marked.last() == if mails.last().id == mid {
            Mail { is_read: true, ..mails.last() }
        } else {
            mails.last()
        });
        let rest = unread_mail_ids_to(mails.drop_last(), uid);
        let marked_rest = unread_mail_ids_to(mark_read(mails.drop_last(), mid), uid);
        assert forall|x: MailId| x != mid implies (unread_mail_ids_to(marked, uid).contains(x)
            <==> unread_mail_ids_to(mails, uid).contains(x)) by {
            if mails.last().recipient == uid && !mails.last().is_read {
                if mails.last().id == mid {
                    vstd::seq_lib::lemma_seq_contains_after_push(rest, mid, x);
                } else {
                    vstd::seq_lib::lemma_seq_contains_after_push(rest, mails.last().id, x);
                    vstd::seq_lib::lemma_seq_contains_after_push(
                        marked_rest,
                        mails.last().id,
                        x,
                    );
                }
            }
        }
    }
}

/// Marking the same mail id read twice equals marking it once; with unique
/// mail ids the stored body is untouched by the marking and the read flag
/// of the marked mail stands true afterwards.
pub proof fn lemma_read_mail_idempotent(mails: Seq<Mail>, mid: MailId)
    requires
        forall|i: int, j: int| #![auto] 0 <= i < j < mails.len() ==> mails[i].id != mails[j].id,
        has_mail_id(mails, mid),
    ensures
        mark_read(mark_read(mails, mid), mid) == mark_read(mails, mid),
        has_mail_id(mark_read(mails, mid), mid),
        mail_with_id(mark_read(mails, mid), mid).content == mail_with_id(mails, mid).content,
        mail_with_id(mark_read(mails, mid), mid).is_read,
{
    assert(mark_read(mark_read(mails, mid), mid) =~= mark_read(mails, mid));
    let marked = mark_read(mails, mid);
    let i = choose|i: int| 0 <= i < mails.len() && mails[i].id == mid;
    assert(marked[i].id == mid);
    assert(has_mail_id(marked, mid));
    let j = choose|j: int| 0 <= j < marked.len() && marked[j].id == mid;
    assert(mails[j].id == mid);
    if i < j {
        assert(mails[i].id != mails[j].id);
    } else if j < i {
        assert(mails[j].id != mails[i].id);
    }
}

/// An account id present in `users` is still present after a new account is
/// appended.
proof fn lemma_user_set_grows(users: Seq<User>, grown: Seq<User>, uid: UserId)
    requires
        grown.len() == users.len() + 1,
        grown.drop_last() == users,
        has_user_id(users, uid),
    ensures
        has_user_id(grown, uid),
{
    let i = choose|i: int| 0 <= i < users.len() && users[i].id == uid;
    assert(grown[i] == users[i]);
}

} // verus!
