//! The configuration of a server that uses the decoder: where its database
//! and its outgoing mail account are found.

use vstd::prelude::*;
use vstd::string::StringExecFns;

verus! {

/// The host name that a database configuration has where none is given.
pub fn localhost() -> (r: String)
    ensures
        r@ == "localhost"@,
{
    String::from_str("localhost")
}

/// How to reach a database.
#[derive(Debug)]
pub struct DatabaseConfig {
    /// The user of the database.
    pub user: String,
    /// The name of the database.
    pub database: String,
    /// The password of the user.
    pub password: String,
    /// The host name of the database.
    pub hostname: String,
}

impl Clone for DatabaseConfig {
    fn clone(&self) -> (r: Self)
        ensures
            r == *self,
    {
        DatabaseConfig {
            user: self.user.clone(),
            database: self.database.clone(),
            password: self.password.clone(),
            hostname: self.hostname.clone(),
        }
    }
}

/// The address under which the database of `user` with password `password`
/// named `database` is reached on `hostname`.
pub open spec fn database_url(
    user: Seq<char>,
    password: Seq<char>,
    hostname: Seq<char>,
    database: Seq<char>,
) -> Seq<char> {
    "postgres://"@ + user + ":"@ + password + "@"@ + hostname + "/"@ + database
}

impl DatabaseConfig {
    /// A database configuration with the given attributes.
    pub fn new(user: String, password: String, database: String, hostname: String) -> (r:
        DatabaseConfig)
        ensures
            r.user == user,
            r.password == password,
            r.database == database,
            r.hostname == hostname,
    {
        DatabaseConfig { user, password, database, hostname }
    }

    /// The address under which the database is reached.
    pub fn url(&self) -> (r: String)
        ensures
            r@ == database_url(self.user@, self.password@, self.hostname@, self.database@),
    {
        let mut url = String::from_str("postgres://");
        url.append(self.user.as_str());
        url.append(":");
        url.append(self.password.as_str());
        url.append("@");
        url.append(self.hostname.as_str());
        url.append("/");
        url.append(self.database.as_str());
        url
    }
}

/// The mail account from which the server sends its own mail.
#[derive(Debug)]
pub struct Mailer {
    /// Whether new users have to confirm their address by mail.
    pub require_email_validation: bool,
    /// The SMTP server of the account.
    pub server: String,
    /// The user name of the account.
    pub username: String,
    /// The password of the account.
    pub password: String,
}

impl Clone for Mailer {
    fn clone(&self) -> (r: Self)
        ensures
            r == *self,
    {
        Mailer {
            require_email_validation: self.require_email_validation,
            server: self.server.clone(),
            username: self.username.clone(),
            password: self.password.clone(),
        }
    }
}

impl Mailer {
    /// A mailer with the given attributes.
    pub fn new(
        require_email_validation: bool,
        server: String,
        username: String,
        password: String,
    ) -> (r: Mailer)
        ensures
            r.require_email_validation == require_email_validation,
            r.server == server,
            r.username == username,
            r.password == password,
    {
        Mailer { require_email_validation, server, username, password }
    }
}

/// The configuration of the server.
#[derive(Debug)]
pub struct ServerConfig {
    /// The address under which the server is reached.
    pub root: String,
    /// The configuration of the database.
    pub database: DatabaseConfig,
    /// The configuration of the mailer, where the server has one.
    pub mailer: Option<Mailer>,
}

impl Clone for ServerConfig {
    fn clone(&self) -> (r: Self)
        ensures
            r == *self,
    {
        ServerConfig {
            root: self.root.clone(),
            database: self.database.clone(),
            mailer: match &self.mailer {
                Some(m) => Some(m.clone()),
                None => None,
            },
        }
    }
}

impl ServerConfig {
    /// A server configuration with the given attributes.
    pub fn new(root: &str, database: DatabaseConfig, mailer: Option<Mailer>) -> (r: ServerConfig)
        ensures
            r.root@ == root@,
            r.database == database,
            r.mailer == mailer,
    {
        ServerConfig { root: String::from_str(root), database, mailer }
    }
}

} // verus!
