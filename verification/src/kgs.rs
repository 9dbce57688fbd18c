//! The client of the KGS Go server: its credentials and the request it logs
//! in with, and the reading of the messages the server answers with.

use vstd::prelude::*;
use vstd::string::StringExecFns;

verus! {

/// Credentials to log in to the server with.
pub struct Config {
    pub username: String,
    pub password: String,
}

impl Config {
    /// Builds a configuration from a user name and a password.
    pub fn new(username: &str, password: &str) -> (r: Config)
        ensures
            r.username@ == username@,
            r.password@ == password@,
    {
        Config { username: username.to_owned(), password: password.to_owned() }
    }
}

/// The account the client logs in as.
pub struct User {
    username: String,
    password: String,
    rank: String,
    flags: String,
}

impl User {
    pub closed spec fn username(&self) -> Seq<char> {
        self.username@
    }

    pub closed spec fn password(&self) -> Seq<char> {
        self.password@
    }

    pub closed spec fn rank(&self) -> Seq<char> {
        self.rank@
    }

    pub closed spec fn flags(&self) -> Seq<char> {
        self.flags@
    }
}

/// A client of the server, for one account.
pub struct Client {
    user: User,
}

impl Client {
    pub closed spec fn user(&self) -> User {
        self.user
    }

    /// A client for the account `username`, of rank `U` and with no flag.
    pub fn start(username: String, password: String) -> (r: Client)
        ensures
            r.user().username() == username@,
            r.user().password() == password@,
            r.user().rank() == "U"@,
            r.user().flags() == ""@,
    {
        let user = User {
            username,
            password,
            rank: String::from_str("U"),
            flags: String::from_str(""),
        };
        Client { user }
    }

    /// The fields of the login request: its type, the account's name and
    /// password, and the locale.
    pub fn login_data(&self) -> (r: Vec<(String, String)>)
        ensures
            r@.len() == 4,
            r@[0].0@ == "type"@ && r@[0].1@ == "LOGIN"@,
            r@[1].0@ == "name"@ && r@[1].1@ == self.user().username(),
            r@[2].0@ == "password"@ && r@[2].1@ == self.user().password(),
            r@[3].0@ == "locale"@ && r@[3].1@ == "fr_FR"@,
    {
        let mut data: Vec<(String, String)> = Vec::new();
        data.push((String::from_str("type"), String::from_str("LOGIN")));
        data.push((String::from_str("name"), self.user.username.clone()));
        data.push((String::from_str("password"), self.user.password.clone()));
        data.push((String::from_str("locale"), String::from_str("fr_FR")));
        data
    }
}

} // verus!
