//! What every request handler reads: the catalog, the users, and each
//! user's shortcuts. None of it changes after start-up.

use std::collections::HashMap;
use std::sync::Arc;
use vstd::prelude::*;
use crate::routes::{resolve_app, shows_directory};
use crate::steam::{LoginUser, SteamShortcut};
use crate::vdfr::appinfo::AppInfo;

verus! {

#[derive(Clone)]
pub struct SharedAppState {
    pub app_info: Arc<AppInfo>,
    /// By 64-bit Steam id.
    pub steam_users: Arc<HashMap<u64, LoginUser>>,
    /// By account id, then by the shortcut's id.
    pub users_shortcuts: Arc<HashMap<u64, HashMap<u32, SteamShortcut>>>,
}

impl SharedAppState {
    /// What is shown for the directory `app_id` of the user with the
    /// account id `id3`; `None` where no such user is known.
    pub fn app_entry(&self, id3: u64, app_id: u32) -> (shown: Option<crate::models::AppInfo>)
        ensures
            match shown {
                Some(info) => self.users_shortcuts@.contains_key(id3) && shows_directory(
                    info,
                    self.app_info.apps@,
                    self.users_shortcuts@[id3]@,
                    app_id,
                ),
                None => !self.users_shortcuts@.contains_key(id3),
            },
    {
        match self.users_shortcuts.get(&id3) {
            Some(shortcuts) => Some(resolve_app(&self.app_info.apps, shortcuts, app_id)),
            None => None,
        }
    }
}

} // verus!
