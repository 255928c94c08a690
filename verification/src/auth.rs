//! Role-based authorization: a monotonic integer role level gates each
//! mutating route. 0 = anonymous, 1 = reader, 2 = contributor, 3 = admin;
//! a higher role implies every lower one.

use vstd::prelude::*;

use crate::Error;

verus! {

/// The authenticated caller's claims, as decoded from a bearer token by the
/// surrounding application. Only the role level matters to the core.
#[derive(Clone, Copy, Debug, PartialEq, Eq, Structural)]
pub struct Claims {
    pub role: i32,
}

/// Succeeds exactly when the caller may read (role at least 1).
pub fn check_reader(claims: &Claims) -> (r: Result<(), Error>)
    ensures
        r is Ok <==> claims.role >= 1,
        r is Err ==> r matches Err(Error::Unauthorized(_)),
{
    check_role(claims, 1)
}

/// Succeeds exactly when the caller may contribute (role at least 2).
pub fn check_contributor(claims: &Claims) -> (r: Result<(), Error>)
    ensures
        r is Ok <==> claims.role >= 2,
        r is Err ==> r matches Err(Error::Unauthorized(_)),
{
    check_role(claims, 2)
}

/// Succeeds exactly when the caller is an administrator (role at least 3).
pub fn check_admin(claims: &Claims) -> (r: Result<(), Error>)
    ensures
        r is Ok <==> claims.role >= 3,
        r is Err ==> r matches Err(Error::Unauthorized(_)),
{
    check_role(claims, 3)
}

fn check_role(claims: &Claims, minimum: i32) -> (r: Result<(), Error>)
    ensures
        r is Ok <==> claims.role >= minimum,
        r is Err ==> r matches Err(Error::Unauthorized(_)),
{
    if claims.role >= minimum {
        Ok(())
    } else {
        Err(Error::Unauthorized("Unauthorized".to_string()))
    }
}

/// Authorization is hierarchical: every check that passes at a threshold
/// passes at every lower threshold as well.
pub proof fn lemma_role_hierarchy(claims: Claims)
    ensures
        claims.role >= 3 ==> claims.role >= 2,
        claims.role >= 2 ==> claims.role >= 1,
{
}

} // verus!
