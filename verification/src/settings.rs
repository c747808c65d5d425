//! Site-wide settings: display strings and the authentication
//! material, as read from the configuration file in the storage
//! directory.  Reading and writing that file is the caller's
//! business; this module owns the values and the file's place.

use vstd::prelude::*;
use vstd::string::StringExecFns;

verus! {

/// The configurable properties of one wiki instance.
#[derive(Debug, Clone)]
pub struct Site {
    pub version: u32,
    pub footer: String,
    pub short_name: String,
    pub author: String,
    pub hashed_password: Option<String>,
    pub web_salt: Vec<u8>,
}

impl Site {
    /// A fresh configuration with the stock footer and name, no
    /// password, and the given salt.
    pub fn new(web_salt: Vec<u8>) -> (s: Site)
        ensures
            s.version == 0,
            s.footer@ == "Powered by <a href=\"http://github.com/dpc/brainwiki\">BrainWiki</a>"@,
            s.short_name@ == "BrainWiki"@,
            s.author@ == ""@,
            s.hashed_password is None,
            s.web_salt == web_salt,
    {
        Site {
            version: 0,
            footer: String::from_str(
                "Powered by <a href=\"http://github.com/dpc/brainwiki\">BrainWiki</a>",
            ),
            short_name: String::from_str("BrainWiki"),
            author: String::from_str(""),
            hashed_password: None,
            web_salt,
        }
    }

    /// Where the configuration lives inside a storage directory.
    pub fn dir_to_file(dir: &str) -> (r: String)
        ensures
            r@ == dir@ + "/config.toml"@,
    {
        let mut r = String::from_str(dir);
        r.append("/config.toml");
        r
    }

    /// Record an already-hashed password.
    pub fn set_hashed_password(&mut self, hash: String)
        ensures
            final(self).hashed_password == Some(hash),
            final(self).version == old(self).version,
            final(self).footer == old(self).footer,
            final(self).short_name == old(self).short_name,
            final(self).author == old(self).author,
            final(self).web_salt == old(self).web_salt,
    {
        self.hashed_password = Some(hash);
    }
}

} // verus!
