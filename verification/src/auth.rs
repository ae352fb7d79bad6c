//! Shared-password authentication: every request carries the credential,
//! as a query parameter or a cookie, and is checked statelessly against
//! the digest of the configured password.

use vstd::prelude::*;
use crate::task::Error;

verus! {

/// The SHA-256 digest of a string's bytes. The digest is a function of the
/// characters alone: the same string gives the same digest on every
/// machine and in every process.
pub uninterp spec fn sha256_str(s: Seq<char>) -> Seq<u8>;

/// Relies on sha2::Sha256::digest: the digest of the input bytes, 32 bytes
/// long, depending on the input alone.
#[verifier::external_body]
fn sha256_of_str(s: &str) -> (r: Vec<u8>)
    ensures
        r@ == sha256_str(s@),
        r@.len() == 32,
{
    <sha2::Sha256 as sha2::Digest>::digest(s).as_slice().to_vec()
}

/// The digest of the configured password, computed once at startup and
/// held instead of the password itself.
pub fn hash_password(password: &String) -> (r: Vec<u8>)
    ensures
        r@ == sha256_str(password@),
        r@.len() == 32,
{
    sha256_of_str(password.as_str())
}

/// Whether a provided credential's digest matches the stored digest.
pub fn authenticate(original_hash: &Vec<u8>, provided_pass: &String) -> (r: bool)
    ensures
        r == (sha256_str(provided_pass@) == original_hash@),
{
    let h = sha256_of_str(provided_pass.as_str());
    if h.len() != original_hash.len() {
        return false;
    }
    let mut j: usize = 0;
    while j < h.len()
        invariant
            0 <= j <= h@.len(),
            h@.len() == original_hash@.len(),
            h@ == sha256_str(provided_pass@),
            forall|i: int| 0 <= i < j ==> h@[i] == original_hash@[i],
        decreases h@.len() - j,
    {
        if h[j] != original_hash[j] {
            return false;
        }
        j += 1;
    }
    proof {
        assert(h@ =~= original_hash@);
    }
    true
}

/// The credential a request presents: the query parameter when given,
/// else the auth cookie's value, else nothing.
pub fn extract_provided(query_password: &Option<String>, cookie_auth: &Option<String>) -> (r:
    Option<String>)
    ensures
        query_password is Some ==> r == *query_password,
        query_password is None ==> r == *cookie_auth,
{
    match query_password {
        Some(p) => Some(p.clone()),
        None => match cookie_auth {
            Some(c) => Some(c.clone()),
            None => None,
        },
    }
}

/// Whether a presented credential passes: present, and its digest equal to
/// the stored digest.
pub open spec fn credential_ok(stored_hash: Seq<u8>, provided: Option<Seq<char>>) -> bool {
    provided matches Some(p) && sha256_str(p) == stored_hash
}

/// Admits or rejects a request: `Ok` exactly when a credential is present
/// and its digest matches; any other value, and absence, fail with
/// `AuthenticationFailed`.
pub fn check_credential(stored_hash: &Vec<u8>, provided: &Option<String>) -> (r: Result<
    (),
    Error,
>)
    ensures
        r is Ok <==> credential_ok(stored_hash@, match provided {
            Some(p) => Some(p@),
            None => None,
        }),
        r is Err ==> r->Err_0 == Error::AuthenticationFailed,
{
    match provided {
        Some(p) => {
            if authenticate(stored_hash, p) {
                Ok(())
            } else {
                Err(Error::AuthenticationFailed)
            }
        },
        None => Err(Error::AuthenticationFailed),
    }
}

/// The authentication law: against the digest of the configured password,
/// presenting that password succeeds; absence fails; and any other value
/// whose digest differs — SHA-256 is relied on to separate unequal inputs —
/// fails.
pub proof fn lemma_authentication(password: Seq<char>, other: Option<Seq<char>>)
    requires
        other matches Some(o) ==> sha256_str(o) != sha256_str(password),
    ensures
        credential_ok(sha256_str(password), Some(password)),
        !credential_ok(sha256_str(password), other),
{
}

} // verus!
