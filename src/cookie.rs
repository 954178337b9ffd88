//! Cookies, rendered as the value of a `Set-Cookie` header.
use vstd::prelude::*;

verus! {

/// The first second of the year 0, in seconds since the Unix epoch.
pub const EARLIEST_SECS: i64 = -62167219200;

/// The last second of the year 9999, in seconds since the Unix epoch.
pub const LATEST_SECS: i64 = 253402300799;

/// An instant in UTC, at a whole second, within the years 0 to 9999: the
/// span an RFC 2822 date can show.
#[derive(Debug, Clone, Copy)]
pub struct Timestamp {
    secs: i64,
}

impl Timestamp {
    #[verifier::type_invariant]
    spec fn inv(&self) -> bool {
        EARLIEST_SECS <= self.secs <= LATEST_SECS
    }

    /// Seconds since the Unix epoch.
    pub closed spec fn secs(&self) -> int {
        self.secs as int
    }

    /// The instant `secs` seconds after the Unix epoch, if an RFC 2822 date
    /// can show it.
    pub fn from_unix(secs: i64) -> (r: Option<Timestamp>)
        ensures
            r is Some <==> EARLIEST_SECS <= secs <= LATEST_SECS,
            r is Some ==> r->Some_0.secs() == secs,
    {
        if EARLIEST_SECS <= secs && secs <= LATEST_SECS {
            Some(Timestamp { secs })
        } else {
            None
        }
    }

    pub fn unix(&self) -> (r: i64)
        ensures
            r == self.secs(),
            EARLIEST_SECS <= r <= LATEST_SECS,
    {
        proof {
            use_type_invariant(self);
        }
        self.secs
    }
}

/// The RFC 2822 form of the instant `secs` seconds after the Unix epoch,
/// such as `Thu, 01 Dec 2022 12:00:00 +0000`.
pub uninterp spec fn rfc2822_of(secs: int) -> Seq<char>;

/// Relies on chrono's `TimeZone::timestamp_opt` on `Utc`, which gives a
/// single date for every second in the years 0 to 9999, and on
/// `DateTime::to_rfc2822`, which writes it as `%a, %d %b %Y %H:%M:%S %z`.
#[verifier::external_body]
fn rfc2822(secs: i64) -> (r: String)
    requires
        EARLIEST_SECS <= secs <= LATEST_SECS,
    ensures
        r@ == rfc2822_of(secs as int),
{
    match chrono::TimeZone::timestamp_opt(&chrono::Utc, secs, 0).single() {
        Some(date) => date.to_rfc2822(),
        None => String::new(),
    }
}

/// The `Set-Cookie` value of a cookie: `key=value`, then the expiry date,
/// the `Secure` flag and the `HttpOnly` flag, each only when present.
pub open spec fn cookie_text(
    key: Seq<char>,
    value: Seq<char>,
    expires: Option<Seq<char>>,
    secure: bool,
    http_only: bool,
) -> Seq<char> {
    key + "="@ + value + match expires {
        Some(e) => "; Expires="@ + e,
        None => Seq::empty(),
    } + if secure {
        "; Secure"@
    } else {
        Seq::empty()
    } + if http_only {
        "; HttpOnly"@
    } else {
        Seq::empty()
    }
}

/// Renders a cookie whose expiry date, if any, is already written out.
pub fn render_cookie(
    key: &str,
    value: &str,
    expires: Option<&str>,
    secure: bool,
    http_only: bool,
) -> (r: String)
    ensures
        r@ == cookie_text(
            key@,
            value@,
            match expires {
                Some(e) => Some(e@),
                None => None,
            },
            secure,
            http_only,
        ),
{
    let mut out = String::new();
    out.append(key);
    out.append("=");
    out.append(value);
    match expires {
        Some(e) => {
            out.append("; Expires=");
            out.append(e);
        },
        None => {},
    }
    if secure {
        out.append("; Secure");
    }
    if http_only {
        out.append("; HttpOnly");
    }
    proof {
        let e = match expires {
            Some(e) => Some(e@),
            None => None,
        };
        let tail = match e {
            Some(t) => "; Expires="@ + t,
            None => Seq::empty(),
        };
        let s_part = if secure {
            "; Secure"@
        } else {
            Seq::empty()
        };
        let h_part = if http_only {
            "; HttpOnly"@
        } else {
            Seq::empty()
        };
        assert(out@ =~= key@ + "="@ + value@ + tail + s_part + h_part);
    }
    out
}

pub struct Cookie<'a> {
    pub key: &'a str,
    pub value: &'a str,
    pub expires: Option<Timestamp>,
    pub secure: bool,
    pub http_only: bool,
}

/// The written-out expiry date of a cookie.
pub open spec fn expiry_text(expires: Option<Timestamp>) -> Option<Seq<char>> {
    match expires {
        Some(t) => Some(rfc2822_of(t.secs())),
        None => None,
    }
}

impl<'a> Cookie<'a> {
    /// The `Set-Cookie` value of this cookie.
    pub fn to_string(&self) -> (r: String)
        ensures
            r@ == cookie_text(
                self.key@,
                self.value@,
                expiry_text(self.expires),
                self.secure,
                self.http_only,
            ),
    {
        match &self.expires {
            Some(t) => {
                let date = rfc2822(t.unix());
                render_cookie(self.key, self.value, Some(date.as_str()), self.secure, self.http_only)
            },
            None => render_cookie(self.key, self.value, None, self.secure, self.http_only),
        }
    }
}

} // verus!
