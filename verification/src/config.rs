//! Configuration data.
//!
//! Discovering, reading and writing the configuration file — and the key
//! file it points to — is the surrounding program's business; this module
//! holds the plain values those files carry. Paths travel as strings.

use vstd::prelude::*;

verus! {

/// How many entries the clipboard keeps unless configured otherwise.
pub const DEFAULT_CLIPBOARD_SIZE: usize = 5;

/// The values the configuration file carries.
#[derive(Debug)]
pub struct Config {
    /// Total number of clipboard entries stored.
    pub clipboard_size: usize,
    pub key_path: Option<String>,
}

impl Config {
    /// Where the key file lives, if a path was set.
    pub open spec fn key_path_view(&self) -> Option<Seq<char>> {
        match self.key_path {
            Some(p) => Some(p@),
            None => None,
        }
    }

    /// Points the configuration at a key file.
    pub fn update_key_path(&mut self, path: String)
        ensures
            final(self).key_path_view() == Some(path@),
            final(self).clipboard_size == old(self).clipboard_size,
    {
        self.key_path = Some(path);
    }

    /// The key file's path, for the surrounding program to read.
    pub fn key_path(&self) -> (r: Option<&String>)
        ensures
            match r {
                Some(p) => self.key_path_view() == Some(p@),
                None => self.key_path_view() is None,
            },
    {
        match &self.key_path {
            Some(p) => Some(p),
            None => None,
        }
    }

    /// A configuration holding `clipboard_size` entries and no key path.
    fn new(clipboard_size: usize) -> (c: Config)
        ensures
            c.clipboard_size == clipboard_size,
            c.key_path_view() is None,
    {
        Config { clipboard_size, key_path: None }
    }
}

impl Default for Config {
    /// The defaults a fresh installation starts from.
    fn default() -> (c: Config)
        ensures
            c.clipboard_size == DEFAULT_CLIPBOARD_SIZE,
            c.key_path_view() is None,
    {
        Config { clipboard_size: DEFAULT_CLIPBOARD_SIZE, key_path: None }
    }
}

/// A configuration together with the path it is stored at.
#[derive(Debug)]
pub struct ConfigFile {
    pub path: String,
    pub config: Config,
}

impl ConfigFile {
    /// A configuration file at `path`, holding the defaults until the
    /// surrounding program loads it.
    pub fn new(path: &String) -> (c: ConfigFile)
        ensures
            c.path@ == path@,
            c.config.clipboard_size == DEFAULT_CLIPBOARD_SIZE,
            c.config.key_path_view() is None,
    {
        ConfigFile { path: path.clone(), config: Config::default() }
    }
}

} // verus!
