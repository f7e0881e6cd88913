use vstd::prelude::*;

verus! {

/// Which targets an action may be performed on.
#[derive(Clone, Copy, Debug, PartialEq, Eq, Structural)]
pub enum InteractionPermission {
    Forbidden,
    YourSelf,
    SameClass,
    AnyBody,
}

/// The capabilities of one profile.
#[derive(Clone, Copy, Debug, PartialEq, Eq, Structural)]
pub struct Permissions {
    pub vote: InteractionPermission,
    pub delete: InteractionPermission,
    pub protect_nickname: InteractionPermission,
    pub allowed_to_use_cmd: bool,
}

impl Permissions {
    /// The permissions a new profile gets.
    pub open spec fn default_permissions() -> Permissions {
        Permissions {
            vote: InteractionPermission::AnyBody,
            delete: InteractionPermission::YourSelf,
            protect_nickname: InteractionPermission::Forbidden,
            allowed_to_use_cmd: false,
        }
    }

    /// A profile that may vote for anybody and act on its own propositions only.
    pub fn new() -> (r: Permissions)
        ensures
            r == Self::default_permissions(),
    {
        Permissions {
            vote: InteractionPermission::AnyBody,
            delete: InteractionPermission::YourSelf,
            protect_nickname: InteractionPermission::Forbidden,
            allowed_to_use_cmd: false,
        }
    }
}

} // verus!
