//! Positions and the permissions of a staff member.
use vstd::prelude::*;
use crate::permission::{Permission, PermissionView};

verus! {

/// The mathematical value of a [`PartialStaffPosition`].
pub struct PositionView {
    pub id: Seq<char>,
    pub index: int,
    pub perms: Seq<PermissionView>,
}

/// The mathematical value of a [`StaffPermissions`].
pub struct StaffPermissionsView {
    pub user_positions: Seq<PositionView>,
    pub perm_overrides: Seq<PermissionView>,
}

/// A staff position as far as resolution needs it.
#[derive(Debug, Hash, PartialEq, Eq)]
pub struct PartialStaffPosition {
    /// The id of the position. It plays no part in resolution.
    pub id: String,
    /// The rank of the position. Lower means higher in the hierarchy.
    pub index: i32,
    /// The permissions of the position, in the order in which they apply.
    pub perms: Vec<Permission>,
}

/// The positions that a staff member holds, and the overrides.
#[derive(Debug)]
pub struct StaffPermissions {
    pub user_positions: Vec<PartialStaffPosition>,
    pub perm_overrides: Vec<Permission>,
}

impl View for PartialStaffPosition {
    type V = PositionView;

    open spec fn view(&self) -> PositionView {
        PositionView { id: self.id@, index: self.index as int, perms: self.perms.deep_view() }
    }
}

impl DeepView for PartialStaffPosition {
    type V = PositionView;

    open spec fn deep_view(&self) -> PositionView {
        self@
    }
}

impl View for StaffPermissions {
    type V = StaffPermissionsView;

    open spec fn view(&self) -> StaffPermissionsView {
        StaffPermissionsView {
            user_positions: self.user_positions.deep_view(),
            perm_overrides: self.perm_overrides.deep_view(),
        }
    }
}

impl Clone for PartialStaffPosition {
    fn clone(&self) -> (copy: Self)
        ensures
            copy@ == self@,
    {
        let copy = PartialStaffPosition {
            id: self.id.clone(),
            index: self.index,
            perms: self.perms.clone(),
        };
        copy
    }
}

impl Clone for StaffPermissions {
    fn clone(&self) -> (copy: Self)
        ensures
            copy@ == self@,
    {
        let copy = StaffPermissions {
            user_positions: self.user_positions.clone(),
            perm_overrides: self.perm_overrides.clone(),
        };
        copy
    }
}

} // verus!
