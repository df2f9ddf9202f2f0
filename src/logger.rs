//! Where the application keeps its data and its log file.

use vstd::prelude::*;

verus! {

/// The name of the application, as its data directory and log files use it.
pub const APP_NAME: &'static str = "train-checker";

/// The data directory used when no other can be found.
pub const FALLBACK_DATA_DIR: &'static str = "./.data";

/// Relies on directories' `ProjectDirs::from` and `data_local_dir`: the
/// platform's local data directory of the application, where a home
/// directory is known. It depends on the environment, so nothing is
/// promised of it.
#[verifier::external_body]
fn project_data_local_dir(qualifier: &str, organization: &str, application: &str) -> (r: Option<String>) {
    match directories::ProjectDirs::from(qualifier, organization, application) {
        Some(dirs) => Some(dirs.data_local_dir().to_string_lossy().into_owned()),
        None => None,
    }
}

/// The data directory: an explicit override first, then the platform's
/// directory for the application, then `FALLBACK_DATA_DIR`.
pub open spec fn data_dir_of(data_folder: Option<String>, project_dir: Option<String>) -> Seq<char> {
    match data_folder {
        Some(d) => d@,
        None => match project_dir {
            Some(p) => p@,
            None => FALLBACK_DATA_DIR@,
        },
    }
}

/// Picks the data directory from an explicit override and the platform's
/// directory for the application.
pub fn choose_data_dir(data_folder: Option<String>, project_dir: Option<String>) -> (r: String)
    ensures
        r@ == data_dir_of(data_folder, project_dir),
{
    match data_folder {
        Some(d) => d,
        None => match project_dir {
            Some(p) => p,
            None => String::from_str(FALLBACK_DATA_DIR),
        },
    }
}

/// The data directory, given the override read from the environment (if
/// any); without one, the platform's directory for the application is
/// looked up.
pub fn get_data_dir(data_folder: Option<String>) -> (r: String)
    ensures
        exists|project_dir: Option<String>| r@ == #[trigger] data_dir_of(data_folder, project_dir),
{
    match data_folder {
        Some(d) => {
            assert(d@ == data_dir_of(Some(d), None));
            d
        },
        None => {
            let project_dir = project_data_local_dir("com", APP_NAME, APP_NAME);
            let r = choose_data_dir(None, project_dir);
            assert(r@ == data_dir_of(None, project_dir));
            r
        },
    }
}

/// The file name of the log of one session: `train-checker_<session>.log`.
pub fn log_file_name(session_id: &str) -> (r: String)
    ensures
        r@ == APP_NAME@ + seq!['_'] + session_id@ + seq!['.', 'l', 'o', 'g'],
{
    let sep = "_";
    let ext = ".log";
    proof {
        reveal_strlit("_");
        reveal_strlit(".log");
    }
    let r = String::from_str(APP_NAME).concat(sep).concat(session_id).concat(ext);
    assert(r@ =~= APP_NAME@ + seq!['_'] + session_id@ + seq!['.', 'l', 'o', 'g']);
    r
}

/// The path of the log file, set at most once per process.
pub struct LogFileSlot {
    path: Option<String>,
}

impl LogFileSlot {
    /// The path held, if one was set.
    pub closed spec fn held(&self) -> Option<Seq<char>> {
        match self.path {
            Some(p) => Some(p@),
            None => None,
        }
    }

    /// A slot with no path yet.
    pub fn new() -> (r: Self)
        ensures
            r.held() is None,
    {
        LogFileSlot { path: None }
    }

    /// Sets the path, unless one is already set: then the slot is left as it
    /// was and `path` is handed back.
    pub fn set(&mut self, path: String) -> (r: Result<(), String>)
        ensures
            old(self).held() is None ==> r is Ok && final(self).held() == Some(path@),
            old(self).held() is Some ==> r == Err::<(), String>(path) && final(self).held() == old(self).held(),
    {
        if self.path.is_some() {
            Err(path)
        } else {
            self.path = Some(path);
            Ok(())
        }
    }
}

/// The path of the current log file, if logging has been initialized.
pub fn get_log_file_path(slot: &LogFileSlot) -> (r: Option<&String>)
    ensures
        match r {
            Some(p) => slot.held() == Some(p@),
            None => slot.held() is None,
        },
{
    match &slot.path {
        Some(p) => Some(p),
        None => None,
    }
}

} // verus!
