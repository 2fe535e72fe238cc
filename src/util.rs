//! Where a model is read from.

use vstd::prelude::*;
use vstd::string::*;

use crate::text::{chars_of, str_eq, string_of};

verus! {

/// The schemes a model location may name.
#[derive(Debug, Clone, Copy, PartialEq, Eq, Structural)]
pub enum ModelScheme {
    /// `http://`
    Http,
    /// `https://`
    Https,
    /// `file://`
    File,
}

/// The text of a scheme.
pub open spec fn scheme_text(s: ModelScheme) -> Seq<char> {
    match s {
        ModelScheme::Http => "http"@,
        ModelScheme::Https => "https"@,
        ModelScheme::File => "file"@,
    }
}

/// The scheme a text names, if any.
pub open spec fn scheme_named(s: Seq<char>) -> Option<ModelScheme> {
    if s == "http"@ {
        Some(ModelScheme::Http)
    } else if s == "https"@ {
        Some(ModelScheme::Https)
    } else if s == "file"@ {
        Some(ModelScheme::File)
    } else {
        None
    }
}

impl ModelScheme {
    /// The text of the scheme: `http`, `https` or `file`.
    pub fn as_str(&self) -> (r: &'static str)
        ensures
            r@ == scheme_text(*self),
    {
        match self {
            ModelScheme::Http => "http",
            ModelScheme::Https => "https",
            ModelScheme::File => "file",
        }
    }

    /// Reads a scheme, exactly as written (`http`, `https`, `file`).
    pub fn parse(s: &str) -> (r: Result<ModelScheme, String>)
        ensures
            scheme_named(s@) matches Some(m) ==> r == Ok::<ModelScheme, String>(m),
            scheme_named(s@) is None ==> r is Err,
    {
        if str_eq(s, "http") {
            Ok(ModelScheme::Http)
        } else if str_eq(s, "https") {
            Ok(ModelScheme::Https)
        } else if str_eq(s, "file") {
            Ok(ModelScheme::File)
        } else {
            let mut msg = String::from_str("Invalid model scheme: ");
            msg.append(s);
            Err(msg)
        }
    }
}

impl std::str::FromStr for ModelScheme {
    type Err = String;

    fn from_str(s: &str) -> Result<Self, Self::Err> {
        ModelScheme::parse(s)
    }
}

/// Where a model is to be read from.
#[derive(Debug, PartialEq, Eq)]
pub enum ModelLocation {
    /// A file on this machine, by its path.
    File(String),
    /// A remote model, by its scheme and full URL.
    Remote(ModelScheme, String),
}

/// Why a model location was refused.
#[derive(Debug, PartialEq, Eq)]
pub enum LocationError {
    /// The text before `://` is not a known scheme; it is kept.
    InvalidScheme(String),
}

/// Whether a separator `://` starts at `k`.
pub open spec fn separator_at(s: Seq<char>, k: int) -> bool {
    0 <= k && k + 3 <= s.len() && s.subrange(k, k + 3) == "://"@
}

/// The position of the first `://` in `s`, if there is one.
pub open spec fn first_separator(s: Seq<char>) -> Option<int> {
    if exists|k: int| #[trigger] separator_at(s, k) && forall|j: int| 0 <= j < k ==> !separator_at(s, j) {
        Some(
            choose|k: int| #[trigger]
                separator_at(s, k) && forall|j: int| 0 <= j < k ==> !separator_at(s, j),
        )
    } else {
        None
    }
}

/// The location a text names: with no `://` a file path; otherwise the
/// text before the first `://` is the scheme, `file` taking the rest as a
/// path and `http` / `https` the whole text as a URL.
pub open spec fn location_of(s: Seq<char>, k: Option<int>) -> Result<
    (ModelScheme, Seq<char>),
    Seq<char>,
> {
    match k {
        None => Ok((ModelScheme::File, s)),
        Some(k) => match scheme_named(s.subrange(0, k)) {
            Some(ModelScheme::File) => Ok((ModelScheme::File, s.subrange(k + 3, s.len() as int))),
            Some(m) => Ok((m, s)),
            None => Err(s.subrange(0, k)),
        },
    }
}

/// The view of a location, as scheme and text.
pub open spec fn location_view(r: Result<ModelLocation, LocationError>) -> Result<
    (ModelScheme, Seq<char>),
    Seq<char>,
> {
    match r {
        Ok(ModelLocation::File(p)) => Ok((ModelScheme::File, p@)),
        Ok(ModelLocation::Remote(m, u)) => Ok((m, u@)),
        Err(LocationError::InvalidScheme(s)) => Err(s@),
    }
}

/// Reads a model location: `file://<path>`, `http://...`, `https://...`, or
/// a bare path. Any other scheme is refused.
pub fn locate_model(uri: &str) -> (r: Result<ModelLocation, LocationError>)
    ensures
        location_view(r) == location_of(uri@, first_separator(uri@)),
{
    let cs = chars_of(uri);
    let mut k: usize = 0;
    while cs.len() >= 3 && k <= cs.len() - 3
        invariant
            cs@ == uri@,
            k <= cs.len(),
            forall|j: int| 0 <= j < k ==> !separator_at(uri@, j),
        decreases cs.len() - k,
    {
        proof {
            reveal_strlit("://");
        }
        if cs[k] == ':' && cs[k + 1] == '/' && cs[k + 2] == '/' {
            assert(separator_at(uri@, k as int)) by {
                assert(uri@.subrange(k as int, k + 3) =~= "://"@);
            }
            let scheme = string_of(&cs, 0, k);
            assert(first_separator(uri@) == Some(k as int)) by {
                let chosen = choose|j: int| #[trigger]
                    separator_at(uri@, j) && forall|i: int| 0 <= i < j ==> !separator_at(uri@, i);
                assert(separator_at(uri@, chosen) && forall|i: int| 0 <= i < chosen ==> !separator_at(uri@, i));
                if chosen < k {
                } else if chosen > k {
                }
            }
            return match ModelScheme::parse(scheme.as_str()) {
                Ok(ModelScheme::File) => Ok(ModelLocation::File(string_of(&cs, k + 3, cs.len()))),
                Ok(m) => Ok(ModelLocation::Remote(m, String::from_str(uri))),
                Err(_) => Err(LocationError::InvalidScheme(scheme)),
            };
        } else {
            assert(!separator_at(uri@, k as int)) by {
                if separator_at(uri@, k as int) {
                    assert(uri@.subrange(k as int, k + 3)[0] == uri@[k as int]);
                    assert(uri@.subrange(k as int, k + 3)[1] == uri@[k + 1]);
                    assert(uri@.subrange(k as int, k + 3)[2] == uri@[k + 2]);
                }
            }
        }
        k = k + 1;
    }
    assert(first_separator(uri@) is None) by {
        assert forall|j: int| !separator_at(uri@, j) by {
            if 0 <= j && j + 3 <= uri@.len() {
                assert(j < k);
            }
        }
    }
    Ok(ModelLocation::File(String::from_str(uri)))
}

} // verus!
