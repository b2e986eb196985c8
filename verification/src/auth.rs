//! Optional S3 authentication with one shared secret.
//!
//! Without a configured secret no request is verified. With one, each signature is verified
//! against it, whatever access key the client names: the gateway only cares that the client
//! knows the secret.

use crate::config::Config;
use vstd::prelude::*;

verus! {

/// Auth provider that returns the same shared secret for any access key.
#[derive(Debug, Clone)]
pub struct SharedSecretAuth {
    secret: String,
}

impl SharedSecretAuth {
    /// The shared secret.
    pub closed spec fn secret_view(&self) -> Seq<char> {
        self.secret@
    }

    /// A provider of `secret`.
    pub fn new(secret: String) -> (r: Self)
        ensures
            r.secret_view() == secret@,
    {
        SharedSecretAuth { secret }
    }

    /// The provider that a configuration asks for, if it asks for one.
    pub fn from_config(config: &Config) -> (r: Option<Self>)
        ensures
            match r {
                Some(auth) => config.auth_secret matches Some(s) && auth.secret_view() == s@,
                None => config.auth_secret is None,
            },
    {
        match &config.auth_secret {
            Some(secret) => Some(SharedSecretAuth::new(secret.clone())),
            None => None,
        }
    }

    /// The secret for an access key: the shared one, for every key.
    pub fn get_secret_key(&self, _access_key: &str) -> (s: &str)
        ensures
            s@ == self.secret_view(),
    {
        self.secret.as_str()
    }
}

/// A configured secret, and no other, is the secret of every access key; without one nothing is
/// verified.
pub proof fn law_one_secret_for_every_key(
    config: &Config,
    auth: Option<SharedSecretAuth>,
    access_key: &str,
    secret: &str,
)
    requires
        call_ensures(SharedSecretAuth::from_config, (config,), auth),
        auth matches Some(a) ==> call_ensures(
            SharedSecretAuth::get_secret_key,
            (&a, access_key),
            secret,
        ),
    ensures
        auth is Some <==> config.auth_secret is Some,
        config.auth_secret matches Some(s) ==> secret@ == s@,
{
}

/// A provider gives out the secret that it was made with.
pub proof fn law_provider_keeps_its_secret(
    secret: String,
    auth: SharedSecretAuth,
    access_key: &str,
    given: &str,
)
    requires
        call_ensures(SharedSecretAuth::new, (secret,), auth),
        call_ensures(SharedSecretAuth::get_secret_key, (&auth, access_key), given),
    ensures
        given@ == secret@,
{
}

} // verus!
