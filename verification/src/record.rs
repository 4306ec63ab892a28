//! The cookie record: a named value with the attributes that a
//! `Set-Cookie` directive can carry, and its mathematical model.

use vstd::prelude::*;

verus! {

/// Same-site policy attribute of a cookie.
#[derive(Clone, Copy, Debug, PartialEq, Eq, Structural)]
pub enum SameSitePolicy {
    Strict,
    Lax,
    /// The `SameSite=None` policy.
    Unrestricted,
}

/// A named cookie with its attributes. A record parsed from a `Cookie`
/// header carries only a name and a value; the attributes matter on the
/// response side, where a record is encoded as a `Set-Cookie` value.
#[derive(Debug)]
pub struct CookieRecord {
    pub name: String,
    pub value: String,
    pub domain: Option<String>,
    pub path: Option<String>,
    /// Expiration, as a `Max-Age` in seconds.
    pub max_age_seconds: Option<u32>,
    pub secure: bool,
    pub http_only: bool,
    pub same_site: Option<SameSitePolicy>,
}

/// Mathematical model of a [`CookieRecord`].
pub ghost struct RecordView {
    pub name: Seq<char>,
    pub value: Seq<char>,
    pub domain: Option<Seq<char>>,
    pub path: Option<Seq<char>>,
    pub max_age_seconds: Option<u32>,
    pub secure: bool,
    pub http_only: bool,
    pub same_site: Option<SameSitePolicy>,
}

impl View for CookieRecord {
    type V = RecordView;

    open spec fn view(&self) -> RecordView {
        RecordView {
            name: self.name@,
            value: self.value@,
            domain: match self.domain {
                Some(d) => Some(d@),
                None => None,
            },
            path: match self.path {
                Some(p) => Some(p@),
                None => None,
            },
            max_age_seconds: self.max_age_seconds,
            secure: self.secure,
            http_only: self.http_only,
            same_site: self.same_site,
        }
    }
}

/// The model of a record holding just a name and a value.
pub open spec fn pair_view(name: Seq<char>, value: Seq<char>) -> RecordView {
    RecordView {
        name: name,
        value: value,
        domain: None,
        path: None,
        max_age_seconds: None,
        secure: false,
        http_only: false,
        same_site: None,
    }
}

/// Whether a record carries no attributes beyond its name and value.
pub open spec fn is_plain_pair(r: RecordView) -> bool {
    r == pair_view(r.name, r.value)
}

/// The removal directive for a record: same name and attributes, empty
/// value, and an immediate expiry (`Max-Age=0`) telling the client to
/// delete the cookie.
pub open spec fn removal_view(r: RecordView) -> RecordView {
    RecordView {
        name: r.name,
        value: Seq::<char>::empty(),
        domain: r.domain,
        path: r.path,
        max_age_seconds: Some(0u32),
        secure: r.secure,
        http_only: r.http_only,
        same_site: r.same_site,
    }
}

impl CookieRecord {
    /// A record holding just a name and a value, with no attributes.
    pub fn pair(name: String, value: String) -> (r: CookieRecord)
        ensures
            r@ == pair_view(name@, value@),
    {
        CookieRecord {
            name,
            value,
            domain: None,
            path: None,
            max_age_seconds: None,
            secure: false,
            http_only: false,
            same_site: None,
        }
    }

    /// An exact copy of this record.
    pub fn duplicate(&self) -> (r: CookieRecord)
        ensures
            r == *self,
    {
        CookieRecord {
            name: self.name.clone(),
            value: self.value.clone(),
            domain: match &self.domain {
                Some(d) => Some(d.clone()),
                None => None,
            },
            path: match &self.path {
                Some(p) => Some(p.clone()),
                None => None,
            },
            max_age_seconds: self.max_age_seconds,
            secure: self.secure,
            http_only: self.http_only,
            same_site: self.same_site,
        }
    }

    /// The removal directive for this record: same name and attributes,
    /// empty value, `Max-Age=0`.
    pub fn removal(&self) -> (r: CookieRecord)
        ensures
            r@ == removal_view(self@),
    {
        CookieRecord {
            name: self.name.clone(),
            value: String::new(),
            domain: match &self.domain {
                Some(d) => Some(d.clone()),
                None => None,
            },
            path: match &self.path {
                Some(p) => Some(p.clone()),
                None => None,
            },
            max_age_seconds: Some(0),
            secure: self.secure,
            http_only: self.http_only,
            same_site: self.same_site,
        }
    }

    /// Whether two records are equal in every field.
    pub fn same_record(&self, other: &CookieRecord) -> (r: bool)
        ensures
            r == (self@ == other@),
    {
        let names_eq = self.name == other.name;
        let values_eq = self.value == other.value;
        let domains_eq = match (&self.domain, &other.domain) {
            (Some(a), Some(b)) => *a == *b,
            (None, None) => true,
            _ => false,
        };
        let paths_eq = match (&self.path, &other.path) {
            (Some(a), Some(b)) => *a == *b,
            (None, None) => true,
            _ => false,
        };
        let ages_eq = match (self.max_age_seconds, other.max_age_seconds) {
            (Some(a), Some(b)) => a == b,
            (None, None) => true,
            _ => false,
        };
        let policies_eq = match (self.same_site, other.same_site) {
            (Some(a), Some(b)) => a == b,
            (None, None) => true,
            _ => false,
        };
        names_eq && values_eq && domains_eq && paths_eq && ages_eq && policies_eq
            && self.secure == other.secure && self.http_only == other.http_only
    }
}

/// Error from parsing a request's `Cookie` header text: a raw header value
/// that is not header-safe text, or a malformed `name=value` pair. The
/// string describes the cause.
#[derive(Debug)]
pub struct CookieParseError(pub String);

} // verus!
