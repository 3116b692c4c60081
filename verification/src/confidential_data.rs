use vstd::laws_eq::obeys_concrete_eq;
use vstd::prelude::*;

verus! {

/// A value with a public version that everybody sees and, optionally, a
/// private (true) version that only a listed set of users may see.
#[derive(Debug, PartialEq, Clone, Default)]
pub struct ConfidentialData<T, U> {
    public_data: T,
    private_data: Option<T>,
    users_aware_of_private: Vec<U>,
}

/// The abstract state of a [`ConfidentialData`].
pub ghost struct ConfidentialView<T, U> {
    pub public_data: T,
    pub private_data: Option<T>,
    pub users_aware_of_private: Seq<U>,
}

impl<T, U> View for ConfidentialData<T, U> {
    type V = ConfidentialView<T, U>;

    closed spec fn view(&self) -> ConfidentialView<T, U> {
        ConfidentialView {
            public_data: self.public_data,
            private_data: self.private_data,
            users_aware_of_private: self.users_aware_of_private@,
        }
    }
}

/// What `user` sees: the private value when there is one and `user` was let
/// in on it, the public value otherwise.
pub open spec fn seen_by<T, U>(v: ConfidentialView<T, U>, user: U) -> T {
    match v.private_data {
        Some(private) => if v.users_aware_of_private.contains(user) {
            private
        } else {
            v.public_data
        },
        None => v.public_data,
    }
}

/// The true value: the private one when there is one, the public one otherwise.
pub open spec fn true_state<T, U>(v: ConfidentialView<T, U>) -> T {
    match v.private_data {
        Some(private) => private,
        None => v.public_data,
    }
}

impl<T, U> ConfidentialData<T, U> where T: Copy, U: PartialEq + Copy {
    /// Data that is public, with no private version.
    pub fn new(initial_data: T) -> (r: Self)
        ensures
            r@.public_data == initial_data,
            r@.private_data is None,
            r@.users_aware_of_private.len() == 0,
    {
        ConfidentialData { public_data: initial_data, private_data: None, users_aware_of_private: vec![] }
    }

    /// The value that `user_id` is allowed to see: the private value when
    /// there is one and `user_id` compares equal to a listed user, the public
    /// value otherwise. Where `U`'s `==` is equality of values, that is
    /// exactly `seen_by`; for any other `==` the answer is still one of the
    /// two values, and the public one when there is no private value.
    pub fn get(&self, user_id: U) -> (r: T)
        ensures
            obeys_concrete_eq::<U>() ==> r == seen_by(self@, user_id),
            r == self@.public_data || self@.private_data == Some(r),
            self@.private_data is None ==> r == self@.public_data,
    {
        match &self.private_data {
            Some(private) => {
                if self.is_aware(&user_id) {
                    *private
                } else {
                    self.public_data
                }
            },
            None => self.public_data,
        }
    }

    fn is_aware(&self, user_id: &U) -> (r: bool)
        ensures
            obeys_concrete_eq::<U>() ==> r == self.users_aware_of_private@.contains(*user_id),
    {
        let n = self.users_aware_of_private.len();
        let mut i: usize = 0;
        while i < n
            invariant
                n == self.users_aware_of_private@.len(),
                i <= n,
                obeys_concrete_eq::<U>() ==> forall|j: int| 0 <= j < i ==> self.users_aware_of_private@[j] != *user_id,
            decreases n - i,
        {
            proof {
                reveal(obeys_concrete_eq);
            }
            if self.users_aware_of_private[i] == *user_id {
                assert(obeys_concrete_eq::<U>() ==> self.users_aware_of_private@[i as int] == *user_id);
                return true;
            }
            i = i + 1;
        }
        false
    }

    /// Reveals the private value to everybody: it becomes the public value and
    /// the private version is dropped. Without a private value the public
    /// value stays as it is.
    pub fn make_public(&mut self)
        ensures
            final(self)@.public_data == true_state(old(self)@),
            final(self)@.private_data is None,
            final(self)@.users_aware_of_private.len() == 0,
    {
        match &self.private_data {
            Some(private) => {
                self.public_data = *private;
            },
            None => {},
        };
        self.wipe_private_data();
    }

    /// Lets `user_id` see the private value from now on.
    pub fn give_user_private_access(&mut self, user_id: &U)
        ensures
            final(self)@.public_data == old(self)@.public_data,
            final(self)@.private_data == old(self)@.private_data,
            final(self)@.users_aware_of_private == old(self)@.users_aware_of_private.push(*user_id),
    {
        self.users_aware_of_private.push(*user_id);
    }

    /// Sets the private value, visible to exactly the users listed.
    pub fn set_private_data(&mut self, private_data: T, users_aware_of_private: &[U])
        ensures
            final(self)@.public_data == old(self)@.public_data,
            final(self)@.private_data == Some(private_data),
            final(self)@.users_aware_of_private == users_aware_of_private@,
    {
        self.private_data = Some(private_data);
        let mut users: Vec<U> = Vec::new();
        let n = users_aware_of_private.len();
        let mut i: usize = 0;
        while i < n
            invariant
                n == users_aware_of_private@.len(),
                i <= n,
                users@ == users_aware_of_private@.take(i as int),
            decreases n - i,
        {
            users.push(users_aware_of_private[i]);
            i = i + 1;
            assert(users@ =~= users_aware_of_private@.take(i as int));
        }
        assert(users@ =~= users_aware_of_private@);
        self.users_aware_of_private = users;
    }

    /// Sets the value that everybody sees and drops any private version.
    pub fn set_public_data_and_reveal(&mut self, true_data: T)
        ensures
            final(self)@.public_data == true_data,
            final(self)@.private_data is None,
            final(self)@.users_aware_of_private.len() == 0,
    {
        self.public_data = true_data;
        self.wipe_private_data();
    }

    /// The true value, whoever may see it.
    pub fn get_true_state(&self) -> (r: T)
        ensures
            r == true_state(self@),
    {
        if let Some(private) = self.private_data {
            return private;
        }
        return self.public_data;
    }

    fn wipe_private_data(&mut self)
        ensures
            final(self)@.public_data == old(self)@.public_data,
            final(self)@.private_data is None,
            final(self)@.users_aware_of_private.len() == 0,
    {
        self.private_data = None;
        self.users_aware_of_private = vec![];
    }
}

/// After private data is set for a list of users, those users see it and
/// everybody else still sees the public value.
pub proof fn lemma_private_data_seen_by_listed<T, U>(
    before: ConfidentialView<T, U>,
    after: ConfidentialView<T, U>,
    private_data: T,
    users: Seq<U>,
    user: U,
)
    requires
        after.public_data == before.public_data,
        after.private_data == Some(private_data),
        after.users_aware_of_private == users,
    ensures
        seen_by(after, user) == if users.contains(user) {
            private_data
        } else {
            before.public_data
        },
        true_state(after) == private_data,
{
}

/// What a user without access to the private value sees never depends on
/// the private value: it is the public value.
pub proof fn lemma_private_hidden_from_others<T, U>(
    v1: ConfidentialView<T, U>,
    v2: ConfidentialView<T, U>,
    user: U,
)
    requires
        v1.public_data == v2.public_data,
        v1.users_aware_of_private == v2.users_aware_of_private,
        !v1.users_aware_of_private.contains(user),
    ensures
        seen_by(v1, user) == seen_by(v2, user),
        seen_by(v1, user) == v1.public_data,
{
}

/// A user given private access sees the true value.
pub proof fn lemma_access_shows_truth<T, U>(
    before: ConfidentialView<T, U>,
    after: ConfidentialView<T, U>,
    user: U,
)
    requires
        after.public_data == before.public_data,
        after.private_data == before.private_data,
        after.users_aware_of_private == before.users_aware_of_private.push(user),
    ensures
        seen_by(after, user) == true_state(before),
        true_state(after) == true_state(before),
{
    assert(after.users_aware_of_private[after.users_aware_of_private.len() - 1] == user);
}

/// Once the data is made public, everybody sees what was the true value.
pub proof fn lemma_public_shows_truth<T, U>(
    before: ConfidentialView<T, U>,
    after: ConfidentialView<T, U>,
    user: U,
)
    requires
        after.public_data == true_state(before),
        after.private_data is None,
    ensures
        seen_by(after, user) == true_state(before),
        true_state(after) == true_state(before),
{
}

/// Once a value is set public and revealed, everybody sees it.
pub proof fn lemma_reveal_shows_value<T, U>(after: ConfidentialView<T, U>, value: T, user: U)
    requires
        after.public_data == value,
        after.private_data is None,
    ensures
        seen_by(after, user) == value,
        true_state(after) == value,
{
}

/// The true value is what any user aware of the private value sees.
pub proof fn lemma_true_state_seen_by_aware<T, U>(v: ConfidentialView<T, U>, user: U)
    requires
        v.private_data is None || v.users_aware_of_private.contains(user),
    ensures
        seen_by(v, user) == true_state(v),
{
}

} // verus!
