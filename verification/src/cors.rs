//! The cross-origin policy: which origins may read a response, and the
//! headers that tell a browser so.

use vstd::prelude::*;

verus! {

/// The origins that the service admits, in the order it lists them.
pub open spec fn admitted_origins() -> Seq<Seq<char>> {
    seq![
        "http://localhost:443"@,
        "https://localhost"@,
        "https://localhost:80"@,
        "http://localhost:8080"@,
        "http://localhost"@,
        "http://desdemona.seoulsky.org"@,
        "http://desdemona.seoulsky.org:443"@,
        "https://desdemona.seoulsky.org"@,
    ]
}

/// The text of each string.
pub open spec fn views_of(strings: Seq<String>) -> Seq<Seq<char>> {
    strings.map_values(|s: String| s@)
}

/// A header as the pair of its name and its value.
pub open spec fn header(name: Seq<char>, value: Seq<char>) -> (Seq<char>, Seq<char>) {
    (name, value)
}

/// The headers that admit `origin`: the origin echoed, the one method,
/// any header, and credentials.
pub open spec fn admitting_headers(origin: Seq<char>) -> Seq<(Seq<char>, Seq<char>)> {
    seq![
        header("Access-Control-Allow-Origin"@, origin),
        header("Access-Control-Allow-Methods"@, "GET"@),
        header("Access-Control-Allow-Headers"@, "*"@),
        header("Access-Control-Allow-Credentials"@, "true"@),
    ]
}

/// The name and the value of each header.
pub open spec fn headers_of(headers: Seq<(String, String)>) -> Seq<(Seq<char>, Seq<char>)> {
    headers.map_values(|h: (String, String)| (h.0@, h.1@))
}

/// The origin that a request states; the empty text where it states none.
pub open spec fn stated_origin(origin: Option<&str>) -> Seq<char> {
    match origin {
        Some(o) => o@,
        None => Seq::empty(),
    }
}

/// The origins that the service admits.
pub fn allowed_origins() -> (origins: Vec<String>)
    ensures
        views_of(origins@) == admitted_origins(),
{
    let mut origins: Vec<String> = Vec::new();
    origins.push("http://localhost:443".to_owned());
    origins.push("https://localhost".to_owned());
    origins.push("https://localhost:80".to_owned());
    origins.push("http://localhost:8080".to_owned());
    origins.push("http://localhost".to_owned());
    origins.push("http://desdemona.seoulsky.org".to_owned());
    origins.push("http://desdemona.seoulsky.org:443".to_owned());
    origins.push("https://desdemona.seoulsky.org".to_owned());
    assert(views_of(origins@) =~= admitted_origins());
    origins
}

/// The cross-origin policy: a list of admitted origins.
pub struct Cors {
    allowed_origins: Vec<String>,
}

impl View for Cors {
    type V = Seq<Seq<char>>;

    closed spec fn view(&self) -> Seq<Seq<char>> {
        views_of(self.allowed_origins@)
    }
}

impl Cors {
    /// The policy that admits `allowed_origins` and no other origin.
    pub fn new(allowed_origins: Vec<String>) -> (cors: Cors)
        ensures
            cors@ == views_of(allowed_origins@),
    {
        Cors { allowed_origins }
    }

    /// Whether the policy admits `origin`: the list holds exactly that
    /// text.
    pub fn admits(&self, origin: &str) -> (admitted: bool)
        ensures
            admitted == self@.contains(origin@),
    {
        let wanted = origin.to_owned();
        let mut i: usize = 0;
        while i < self.allowed_origins.len()
            invariant
                i <= self.allowed_origins@.len(),
                wanted@ == origin@,
                forall|j: int| 0 <= j < i ==> self@[j] != origin@,
            decreases self.allowed_origins@.len() - i,
        {
            if self.allowed_origins[i] == wanted {
                assert(self@[i as int] == origin@);
                return true;
            }
            assert(self@[i as int] != origin@);
            i += 1;
        }
        false
    }

    /// The headers to set on the response to a request that states
    /// `origin`: the four admitting headers where the policy admits the
    /// origin, none where it does not.
    pub fn response_headers(&self, origin: Option<&str>) -> (headers: Vec<(String, String)>)
        ensures
            headers_of(headers@) == if self@.contains(stated_origin(origin)) {
                admitting_headers(stated_origin(origin))
            } else {
                Seq::empty()
            },
    {
        let origin = match origin {
            Some(o) => o,
            None => "",
        };
        proof {
            reveal_strlit("");
            assert(""@ =~= Seq::<char>::empty());
        }
        let mut headers: Vec<(String, String)> = Vec::new();
        if self.admits(origin) {
            headers.push(("Access-Control-Allow-Origin".to_owned(), origin.to_owned()));
            headers.push(("Access-Control-Allow-Methods".to_owned(), "GET".to_owned()));
            headers.push(("Access-Control-Allow-Headers".to_owned(), "*".to_owned()));
            headers.push(("Access-Control-Allow-Credentials".to_owned(), "true".to_owned()));
            assert(headers_of(headers@) =~= admitting_headers(origin@));
        } else {
            assert(headers_of(headers@) =~= Seq::<(Seq<char>, Seq<char>)>::empty());
        }
        headers
    }
}

} // verus!
