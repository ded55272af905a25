//! Parsing and serialization of the HTTP `Cookie` and `Set-Cookie` header
//! families.
//!
//! The crate has two entry points that share a common sub-grammar:
//!
//! * [`Cookie`](cookie::Cookie) — a flat name/value map read from a request
//!   `Cookie` header, or from the name/value parts of several `Set-Cookie`
//!   values, and written back as one semicolon-joined string.
//! * [`SetCookie`](set_cookie::SetCookie) — a map from cookie name to a value
//!   together with its attributes (`Domain`, `Path`, `Max-Age`, `HttpOnly`,
//!   `Secure`, `SameSite`), read from any number of `Set-Cookie` values and
//!   written back as one fully formed header line per entry.
//!
//! All parsing and formatting is specified over sequences of characters and
//! verified; the contracts pin down which inputs are accepted, which are
//! rejected, and the exact text that formatting produces.

pub mod cookie;
pub mod kv;
pub mod round_trip;
pub mod set_cookie;
pub mod text;

pub use cookie::Cookie;
pub use set_cookie::IntoIter;
pub use set_cookie::SameSite;
pub use set_cookie::SetCookie;
pub use set_cookie::SetCookieOptions;
pub use set_cookie::fmt;
