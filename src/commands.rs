use crate::permissions::{InteractionPermission, Permissions};
use vstd::prelude::*;

verus! {

#[derive(Clone, Debug)]
pub struct AddProfil {
    pub name: String,
    pub password: String,
}

#[derive(Clone, Debug)]
pub struct DeleteProfil {
    pub name: String,
}

#[derive(Clone, Debug)]
pub struct AddClass {
    pub name: String,
}

#[derive(Clone, Debug)]
pub struct DeleteClass {
    pub name: String,
}

#[derive(Clone, Debug)]
pub struct AddLonelyToClass {
    pub class: String,
}

#[derive(Clone, Debug)]
pub struct ViewPassword {
    pub name: String,
}

#[derive(Clone, Debug)]
pub struct ChangePassword {
    pub name: String,
    pub new_password: String,
}

#[derive(Clone, Debug)]
pub struct ChangeName {
    pub name: String,
    pub new_name: String,
}

#[derive(Clone, Debug)]
pub struct AddToClass {
    pub profil_name: String,
    pub class_name: String,
}

#[derive(Clone, Debug)]
pub struct RemoveFromClass {
    pub profil_name: String,
    pub class_name: String,
}

/// Which permission a `ChangePermission` command sets, and to what.
#[derive(Clone, Copy, Debug)]
pub enum PermissionKind {
    Vote { permission: InteractionPermission },
    Delete { permission: InteractionPermission },
    Protect { permission: InteractionPermission },
    UseCmd { permission: bool },
}

#[derive(Clone, Debug)]
pub struct ChangePermission {
    pub name: String,
    pub kind: PermissionKind,
}

/// An administrative command.
#[derive(Clone, Debug)]
pub enum Commands {
    Exit,
    AddProfil(AddProfil),
    DeleteProfil(DeleteProfil),
    AddClass(AddClass),
    DeleteClass(DeleteClass),
    ViewLonelyPeople,
    AddLonelyPeopleToClass(AddLonelyToClass),
    ViewPassword(ViewPassword),
    ChangePassword(ChangePassword),
    ChangeName(ChangeName),
    AddToClass(AddToClass),
    RemoveFromClass(RemoveFromClass),
    ChangePerm(ChangePermission),
}

/// `p` with the permission that `kind` names set.
pub open spec fn with_kind(p: Permissions, kind: PermissionKind) -> Permissions {
    match kind {
        PermissionKind::Vote { permission } => Permissions { vote: permission, ..p },
        PermissionKind::Delete { permission } => Permissions { delete: permission, ..p },
        PermissionKind::Protect { permission } => Permissions { protect_nickname: permission, ..p },
        PermissionKind::UseCmd { permission } => Permissions { allowed_to_use_cmd: permission, ..p },
    }
}

/// Sets the permission that `kind` names.
pub fn apply_kind(p: &mut Permissions, kind: PermissionKind)
    ensures
        *final(p) == with_kind(*old(p), kind),
{
    match kind {
        PermissionKind::Vote { permission } => p.vote = permission,
        PermissionKind::Delete { permission } => p.delete = permission,
        PermissionKind::Protect { permission } => p.protect_nickname = permission,
        PermissionKind::UseCmd { permission } => p.allowed_to_use_cmd = permission,
    }
}

} // verus!
