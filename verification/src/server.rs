//! The reply body of the test server's ping route: it echoes the
//! request's method and full path back, one per line, so that a test
//! can see what request reached the server.

use vstd::prelude::*;

verus! {

/// Builds the ping route's reply from the request's method and path.
pub fn ping_response(method: &str, path: &str) -> (r: String)
    ensures
        r@ == "method: "@ + method@ + "\npath: "@ + path@,
{
    let mut s = "method: ".to_owned();
    s.append(method);
    s.append("\npath: ");
    s.append(path);
    proof {
        assert(("method: "@ + method@) + "\npath: "@ + path@ =~= "method: "@ + method@ + (
        "\npath: "@ + path@));
    }
    s
}

} // verus!