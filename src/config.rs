//! Where the store lives, threaded explicitly into whoever opens it.
use vstd::prelude::*;

verus! {

pub struct Config {
    pub diary_db_path: String,
}

impl Config {
    pub fn new(diary_db_path: String) -> (c: Config)
        ensures
            c.diary_db_path == diary_db_path,
    {
        Config { diary_db_path }
    }
}

} // verus!
