use vstd::prelude::*;

use core::marker::PhantomData;

use crate::authority::PermissionLevel;
use crate::name::Name;

verus! {

/// An action to send: the contract it goes to, its name, who authorizes it,
/// and its arguments.
#[derive(Debug, Clone)]
pub struct Action<T> {
    /// Name of the account the action is intended for
    pub account: Name,
    /// Name of the action
    pub name: Name,
    /// List of permissions that authorize this action
    pub authorization: Vec<PermissionLevel>,
    /// Payload data
    pub data: T,
}

impl<T> Action<T> {
    /// The action `name` of `account`, authorized by `authorization`, with `data`.
    pub fn new(authorization: Vec<PermissionLevel>, account: Name, name: Name, data: T) -> (r: Self)
        ensures
            r.account == account,
            r.name == name,
            r.authorization@ == authorization@,
            r.data == data,
    {
        Action { account, name, authorization, data }
    }
}

/// An action of a given name, whose arguments have type `T`.
pub struct ActionWrapper<T> {
    pub _data: PhantomData<T>,
    pub name: Name,
}

impl<T> ActionWrapper<T> {
    /// The action of the given name.
    pub fn new(name: Name) -> (r: Self)
        ensures
            r.name == name,
    {
        ActionWrapper { _data: PhantomData, name }
    }

    /// This action, sent to `account` with the given authorization and arguments.
    pub fn to_action(&self, account: Name, authorization: Vec<PermissionLevel>, data: T) -> (r: Action<T>)
        ensures
            r.account == account,
            r.name == self.name,
            r.authorization@ == authorization@,
            r.data == data,
    {
        Action { account, name: self.name, authorization, data }
    }
}

} // verus!
