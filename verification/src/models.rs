//! What the browser tells its clients.

use vstd::prelude::*;

verus! {

/// A Steam user, under the three forms of the id.
#[derive(Debug)]
pub struct User {
    pub id: u64,
    pub id3: u64,
    pub id64: u64,
    pub username: String,
    pub display_name: String,
    pub timestamp: u64,
}

/// An application as the browser shows it.
#[derive(Debug)]
pub struct AppInfo {
    pub id: u32,
    pub name: String,
    /// Language and name; a language occurs once.
    pub localized_name: Vec<(String, String)>,
    pub developers: Vec<String>,
    pub publishers: Vec<String>,
    pub non_steam: bool,
}

impl Default for AppInfo {
    fn default() -> (app: AppInfo)
        ensures
            app.id == 0,
            app.name@.len() == 0,
            app.localized_name@.len() == 0,
            app.developers@.len() == 0,
            app.publishers@.len() == 0,
            !app.non_steam,
    {
        AppInfo {
            id: 0,
            name: String::new(),
            localized_name: Vec::new(),
            developers: Vec::new(),
            publishers: Vec::new(),
            non_steam: false,
        }
    }
}

/// Which page of a list a client asks for.
#[derive(Debug)]
pub struct Pagination {
    pub page: Option<usize>,
    pub per_page: Option<usize>,
}

} // verus!
