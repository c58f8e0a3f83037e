//! What the shell remembers between runs, none of it secret: the address of
//! the relay and the identity unlocked last.
use vstd::prelude::*;

verus! {

/// The address of the relay unless another is chosen.
pub const DEFAULT_SERVER_ADDR: &'static str = "127.0.0.1:7000";

/// What is remembered.
#[derive(Debug)]
pub struct Config {
    /// The address of the relay used last.
    pub server_addr: String,
    /// The identity public key unlocked last, as digits; empty before the first
    /// run.
    pub last_identity_pub: String,
}

/// The contents of a [`Config`].
pub struct ConfigModel {
    pub server_addr: Seq<char>,
    pub last_identity_pub: Seq<char>,
}

impl View for Config {
    type V = ConfigModel;

    open spec fn view(&self) -> ConfigModel {
        ConfigModel {
            server_addr: self.server_addr@,
            last_identity_pub: self.last_identity_pub@,
        }
    }
}

impl Default for Config {
    fn default() -> (r: Self)
        ensures
            r.server_addr@ == DEFAULT_SERVER_ADDR@,
            r.last_identity_pub@.len() == 0,
    {
        Config { server_addr: DEFAULT_SERVER_ADDR.to_owned(), last_identity_pub: String::new() }
    }
}

impl Clone for Config {
    fn clone(&self) -> (r: Self)
        ensures
            r@ == self@,
    {
        Config {
            server_addr: self.server_addr.clone(),
            last_identity_pub: self.last_identity_pub.clone(),
        }
    }
}

/// The address to connect to: what the remembered address stands for, or the
/// default where it is no address.
pub open spec fn chosen_addr(parsed: Option<Seq<char>>) -> Seq<char> {
    match parsed {
        Some(a) => a,
        None => DEFAULT_SERVER_ADDR@,
    }
}

/// The contents of an optional text.
pub open spec fn opt_text(s: Option<String>) -> Option<Seq<char>> {
    match s {
        Some(t) => Some(t@),
        None => None,
    }
}

impl Config {
    /// The address to connect to, where `parsed` is the socket address that
    /// `server_addr` stands for, `None` where it stands for none.
    pub fn server_socket_addr(&self, parsed: Option<String>) -> (r: String)
        ensures
            r@ == chosen_addr(opt_text(parsed)),
    {
        match parsed {
            Some(a) => a,
            None => DEFAULT_SERVER_ADDR.to_owned(),
        }
    }
}

/// The contents of the parts of a path.
pub open spec fn parts_model(s: Seq<String>) -> Seq<Seq<char>> {
    s.map_values(|p: String| p@)
}

/// The config file below the user's config directory, part by part.
pub fn config_path() -> (r: Vec<String>)
    ensures
        parts_model(r@) == seq!["um"@, "config.toml"@],
{
    let mut r: Vec<String> = Vec::new();
    r.push("um".to_owned());
    r.push("config.toml".to_owned());
    assert(parts_model(r@) =~= seq!["um"@, "config.toml"@]);
    r
}

/// The store file of an identity below the user's data directory, part by
/// part: each identity has a store of its own.
pub fn store_path(identity_pub_hex: &str) -> (r: Vec<String>)
    ensures
        parts_model(r@) == seq!["um"@, identity_pub_hex@ + ".db"@],
{
    let mut file: String = identity_pub_hex.to_owned();
    file.append(".db");
    let mut r: Vec<String> = Vec::new();
    r.push("um".to_owned());
    r.push(file);
    assert(parts_model(r@) =~= seq!["um"@, identity_pub_hex@ + ".db"@]);
    r
}

// ---- Laws ---------------------------------------------------------------------------------

/// The address that the remembered text stands for is the one to connect to, and
/// without one the default.
pub proof fn lemma_chosen_addr(a: Seq<char>)
    ensures
        chosen_addr(Some(a)) == a,
        chosen_addr(None) == "127.0.0.1:7000"@,
{
}

} // verus!
