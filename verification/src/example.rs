//! OAuth 2.0 Authorization Code grant with PKCE, as a small program whose
//! calls between participant types make up a sequence diagram.
use vstd::prelude::*;
use vstd::string::*;

pub mod alpha_protocol;
pub mod beta_protocol;

verus! {

#[derive(Clone)]
pub struct Verifier(pub String);

#[derive(Clone)]
pub struct Challenge(pub String);

#[derive(Clone)]
pub struct AuthCode(pub String);

#[derive(Clone)]
pub struct AccessToken(pub String);

#[derive(Clone)]
pub struct Tokens {
    pub access: AccessToken,
    pub refresh: String,
    pub expires_in_secs: u64,
}

#[derive(Clone)]
pub struct ResourceData(pub String);

#[derive(Clone)]
pub struct RenderedUi;

/// The person at the keyboard; the flow starts here.
pub struct User;

/// The single-page client running in the user's browser.
pub struct Browser {
    pub session_id: String,
}

/// The OAuth provider.
pub struct AuthServer;

/// The API holding the user's data.
pub struct ResourceServer;

impl User {
    /// Clicking "Log in" starts the login in a fresh browser session.
    pub fn click_login_button() {
        let mut browser = Browser { session_id: String::new() };
        browser.handle_login();
    }
}

impl Browser {
    /// Derives the PKCE pair, gets a code, trades it for tokens, fetches the
    /// resource and renders it.
    fn handle_login(&mut self) -> (r: RenderedUi)
        ensures
            final(self).session_id@ == old(self).session_id@,
    {
        let (verifier, challenge) = self.derive_pkce();
        let code = AuthServer::authorize(challenge);
        let tokens = AuthServer::exchange(code, verifier);
        let data = ResourceServer::fetch(&tokens.access);
        self.render(data)
    }

    /// The verifier and its challenge.
    fn derive_pkce(&self) -> (r: (Verifier, Challenge))
        ensures
            r.0.0@ == "RANDOM_VERIFIER"@,
            r.1.0@ == "SHA256_OF_VERIFIER"@,
    {
        (Verifier("RANDOM_VERIFIER".to_owned()), Challenge("SHA256_OF_VERIFIER".to_owned()))
    }

    /// The rendered page; the session is left as it is.
    fn render(&mut self, _data: ResourceData) -> (r: RenderedUi)
        ensures
            final(self).session_id@ == old(self).session_id@,
    {
        RenderedUi
    }
}

impl AuthServer {
    /// Consent and redirect with a one-time code; an empty challenge is
    /// rejected and gets an empty code.
    fn authorize(challenge: Challenge) -> (r: AuthCode)
        ensures
            r.0@ == if challenge.0@.len() == 0 {
                Seq::<char>::empty()
            } else {
                "ONE_TIME_CODE"@
            },
    {
        if challenge.0.unicode_len() == 0 {
            AuthServer::reject_invalid_challenge();
            AuthCode(String::new())
        } else {
            AuthServer::record_pending_code(&challenge);
            AuthCode("ONE_TIME_CODE".to_owned())
        }
    }

    fn reject_invalid_challenge() {
    }

    fn record_pending_code(_challenge: &Challenge) {
    }

    /// The token exchange, verified against the PKCE pair.
    fn exchange(_code: AuthCode, _verifier: Verifier) -> (r: Tokens)
        ensures
            r.access.0@ == "ACCESS_TOKEN"@,
            r.refresh@ == "REFRESH_TOKEN"@,
            r.expires_in_secs == 3600,
    {
        Tokens {
            access: AccessToken("ACCESS_TOKEN".to_owned()),
            refresh: "REFRESH_TOKEN".to_owned(),
            expires_in_secs: 3600,
        }
    }
}

impl ResourceServer {
    /// The protected resource; a missing bearer token is logged.
    fn fetch(token: &AccessToken) -> (r: ResourceData)
        ensures
            r.0@ == "the answer is 42"@,
    {
        if token.0.unicode_len() == 0 {
            ResourceServer::log_missing_token();
        }
        ResourceData("the answer is 42".to_owned())
    }

    fn log_missing_token() {
    }
}

} // verus!
