//! What every service shares: how many records a listing returns and skips,
//! the dates of a request, and the service that stands for a missing one.

use crate::error::{ErrorKind, WHError};
use crate::time::{day_start, parse_date};
use vstd::prelude::*;
use vstd::string::StringSliceAdditionalSpecFns;

verus! {

/// The most records that one listing returns.
pub const MAX_LIMIT: usize = 100;

/// The number of records that a listing returns where none is asked for.
pub const DEFAULT_LIMIT: usize = 10;

/// How many records a listing returns: what is asked for, but no more than
/// [`MAX_LIMIT`]; [`DEFAULT_LIMIT`] where nothing is asked for.
pub fn limit(requested: Option<u64>) -> (r: usize)
    ensures
        requested is None ==> r == DEFAULT_LIMIT,
        requested matches Some(n) ==> r == (if n <= MAX_LIMIT {
            n as usize
        } else {
            MAX_LIMIT
        }),
{
    match requested {
        Some(n) => if n <= MAX_LIMIT as u64 {
            n as usize
        } else {
            MAX_LIMIT
        },
        None => DEFAULT_LIMIT,
    }
}

/// How many records a listing skips: what is asked for, or none where nothing
/// is asked for or what is asked for does not fit.
pub fn skip(requested: Option<u64>) -> (r: usize)
    ensures
        requested is None ==> r == 0,
        requested matches Some(n) ==> r == (if n <= usize::MAX {
            n as usize
        } else {
            0
        }),
{
    match requested {
        Some(n) => if n <= usize::MAX as u64 {
            n as usize
        } else {
            0
        },
        None => 0,
    }
}

/// A period, from its first day to its last.
#[derive(Clone, Copy, Debug, PartialEq, Eq, Structural)]
pub struct DateRange(pub u64, pub u64);

/// The date that a request names, if it names one.
pub fn date(named: Option<&str>) -> (r: Result<Option<u64>, WHError>)
    ensures
        named is None ==> r == Ok::<Option<u64>, WHError>(None),
        named is Some ==> (r is Ok <==> parses(named.unwrap())),
        named is Some && r is Ok ==> r.unwrap() is Some && day_start(named.unwrap().spec_bytes())
            == Some(r.unwrap().unwrap()),
        r matches Err(e) ==> e.kind == ErrorKind::Invalid,
{
    match named {
        Some(text) => {
            let t: u64 = parse_date(text)?;
            Ok(Some(t))
        },
        None => Ok(None),
    }
}

/// Whether the text writes a day as `YYYY-MM-DD`.
pub open spec fn parses(text: &str) -> bool {
    day_start(text.spec_bytes()) is Some
}

/// The period that a request names, if it names one. A period that begins
/// must end.
pub fn date_range(from: Option<&str>, till: Option<&str>) -> (r: Result<Option<DateRange>, WHError>)
    ensures
        from is None ==> r == Ok::<Option<DateRange>, WHError>(None),
        from is Some ==> (r is Ok <==> (till is Some && parses(from.unwrap()) && parses(
            till.unwrap(),
        ))),
        from is Some && till is None && parses(from.unwrap()) ==> r.unwrap_err().message@
            == "dates require `till`"@,
        from is Some && r is Ok ==> r.unwrap() is Some && day_start(from.unwrap().spec_bytes())
            == Some(r.unwrap().unwrap().0) && day_start(till.unwrap().spec_bytes()) == Some(
            r.unwrap().unwrap().1,
        ),
        r matches Err(e) ==> e.kind == ErrorKind::Invalid,
{
    match from {
        Some(first) => {
            let a: u64 = parse_date(first)?;
            match till {
                Some(last) => {
                    let b: u64 = parse_date(last)?;
                    Ok(Some(DateRange(a, b)))
                },
                None => Err(WHError::new(ErrorKind::Invalid, "dates require `till`")),
            }
        },
        None => Ok(None),
    }
}

/// The service that answers where no service is registered under a name:
/// every request is refused as not found.
#[derive(Debug)]
pub struct NoService(pub String);

impl NoService {
    /// The refusal: not found, with the name of the missing service.
    pub fn error(&self) -> (e: WHError)
        ensures
            e.kind == ErrorKind::NotFound,
            e.message@ == "service "@ + self.0@,
    {
        WHError::with_detail(ErrorKind::NotFound, "service ", self.0.as_str())
    }

    /// The name under which the service was looked for.
    pub fn path(&self) -> (p: &str)
        ensures
            p@ == self.0@,
    {
        self.0.as_str()
    }

    pub fn find(&self) -> (r: Result<(), WHError>)
        ensures
            r matches Err(e) && e.kind == ErrorKind::NotFound && e.message@ == "service "@
                + self.0@,
    {
        Err(self.error())
    }

    pub fn get(&self, _id: &str) -> (r: Result<(), WHError>)
        ensures
            r matches Err(e) && e.kind == ErrorKind::NotFound && e.message@ == "service "@
                + self.0@,
    {
        Err(self.error())
    }

    pub fn create(&self) -> (r: Result<(), WHError>)
        ensures
            r matches Err(e) && e.kind == ErrorKind::NotFound && e.message@ == "service "@
                + self.0@,
    {
        Err(self.error())
    }

    pub fn update(&self, _id: &str) -> (r: Result<(), WHError>)
        ensures
            r matches Err(e) && e.kind == ErrorKind::NotFound && e.message@ == "service "@
                + self.0@,
    {
        Err(self.error())
    }

    pub fn patch(&self, _id: &str) -> (r: Result<(), WHError>)
        ensures
            r matches Err(e) && e.kind == ErrorKind::NotFound && e.message@ == "service "@
                + self.0@,
    {
        Err(self.error())
    }

    pub fn remove(&self, _id: &str) -> (r: Result<(), WHError>)
        ensures
            r matches Err(e) && e.kind == ErrorKind::NotFound && e.message@ == "service "@
                + self.0@,
    {
        Err(self.error())
    }
}

} // verus!
