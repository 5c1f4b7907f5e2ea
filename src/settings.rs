//! Service settings and their validation.
use vstd::prelude::*;

verus! {

/// Shortest accepted token-signing secret, in bytes.
pub const MIN_SECRET_BYTES: usize = 32;

#[derive(Clone, Debug)]
pub struct Settings {
    pub database_url: String,
    pub database_max_connections: u32,
    pub jwt_secret: String,
    pub port: u16,
    pub host: String,
    pub log_level: String,
    pub cors_origin: String,
}

impl Settings {
    /// The message of the first check the settings fail, if any.
    pub open spec fn problem(self) -> Option<Seq<char>> {
        if (vstd::utf8::encode_utf8(self.jwt_secret@).len() as usize) < MIN_SECRET_BYTES {
            Some("JWT_SECRET must be at least 32 characters long"@)
        } else if self.database_max_connections < 1 {
            Some("DATABASE_MAX_CONNECTIONS must be at least 1"@)
        } else {
            None
        }
    }

    /// Rejects a secret shorter than 32 bytes, then a connection limit of 0.
    pub fn validate(&self) -> (r: Result<(), String>)
        ensures
            match r {
                Ok(_) => self.problem().is_none(),
                Err(m) => self.problem() == Some(m@),
            },
    {
        if self.jwt_secret.as_str().len() < MIN_SECRET_BYTES {
            proof {
                reveal_strlit("JWT_SECRET must be at least 32 characters long");
            }
            return Err("JWT_SECRET must be at least 32 characters long".to_owned());
        }
        if self.database_max_connections < 1 {
            proof {
                reveal_strlit("DATABASE_MAX_CONNECTIONS must be at least 1");
            }
            return Err("DATABASE_MAX_CONNECTIONS must be at least 1".to_owned());
        }
        Ok(())
    }
}

impl Default for Settings {
    fn default() -> (r: Self)
        ensures
            r.database_url@ == "sqlite://volt.db"@,
            r.database_max_connections == 5,
            r.jwt_secret@ == "your-secret-key-change-in-production"@,
            r.port == 3000,
            r.host@ == "127.0.0.1"@,
            r.log_level@ == "info"@,
            r.cors_origin@ == "*"@,
    {
        Settings {
            database_url: "sqlite://volt.db".to_owned(),
            database_max_connections: 5,
            jwt_secret: "your-secret-key-change-in-production".to_owned(),
            port: 3000,
            host: "127.0.0.1".to_owned(),
            log_level: "info".to_owned(),
            cors_origin: "*".to_owned(),
        }
    }
}

} // verus!
