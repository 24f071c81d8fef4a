//! The text that the proxy shows at start-up: the `tg://` link that clients import and
//! the configuration summary of the window.

use vstd::prelude::*;
use crate::text::{decimal_text, digit_char};

verus! {

broadcast use vstd::string::group_string_axioms;

/// Appends `n` in base ten to `out`.
fn push_decimal(out: &mut Vec<char>, n: u64)
    ensures
        final(out)@ == old(out)@ + decimal_text(n as nat),
    decreases n,
{
    if n >= 10 {
        push_decimal(out, n / 10);
    }
    let d = (n % 10) as u8;
    let c = (48u8 + d) as char;
    assert(c == digit_char((n % 10) as int));
    out.push(c);
}

/// Builds a `String` from characters (`String::from_iter`).
#[verifier::external_body]
fn string_from_chars(chars: &Vec<char>) -> (r: String)
    ensures
        r@ == chars@,
{
    chars.iter().collect()
}

/// `n` in base ten, as `format!("{}", n)` writes it.
pub fn decimal_string(n: u64) -> (r: String)
    ensures
        r@ == decimal_text(n as nat),
{
    let mut out: Vec<char> = Vec::new();
    push_decimal(&mut out, n);
    assert(out@ =~= decimal_text(n as nat));
    string_from_chars(&out)
}

/// The link that Telegram clients import: `tg://proxy?server=HOST&port=PORT&secret=ddSECRET`.
pub open spec fn proxy_link_text(host: Seq<char>, port: u16, secret: Seq<char>) -> Seq<char> {
    "tg://proxy?server="@ + host + "&port="@ + decimal_text(port as nat) + "&secret=dd"@ + secret
}

/// Telegram proxy link (use this on all devices).
pub fn proxy_link(host: &str, port: u16, secret: &str) -> (r: String)
    ensures
        r@ == proxy_link_text(host@, port, secret@),
{
    let mut link = "tg://proxy?server=".to_string();
    link.append(host);
    link.append("&port=");
    let port_text = decimal_string(port as u64);
    link.append(port_text.as_str());
    link.append("&secret=dd");
    link.append(secret);
    link
}

/// The configuration summary of the window, one item per line: the listening address,
/// the secret, a warning where TLS verification is off, and the connection cap.
pub open spec fn config_display_text(
    host: Seq<char>,
    port: u16,
    secret: Seq<char>,
    skip_tls_verify: bool,
    max_connections: u64,
) -> Seq<char> {
    "Listening: "@ + host + ":"@ + decimal_text(port as nat) + "\n"@ + "Secret: "@ + secret + (
    if skip_tls_verify {
        "\n"@ + "\u{26a0} TLS verification: DISABLED"@
    } else {
        Seq::empty()
    }) + "\n"@ + "Max connections: "@ + decimal_text(max_connections as nat)
}

/// The configuration lines shown in the window, joined by line feeds.
pub fn config_display(
    host: &str,
    port: u16,
    secret: &str,
    skip_tls_verify: bool,
    max_connections: u64,
) -> (r: String)
    ensures
        r@ == config_display_text(host@, port, secret@, skip_tls_verify, max_connections),
{
    let mut text = "Listening: ".to_string();
    text.append(host);
    text.append(":");
    let port_text = decimal_string(port as u64);
    text.append(port_text.as_str());
    text.append("\n");
    text.append("Secret: ");
    text.append(secret);
    if skip_tls_verify {
        text.append("\n");
        text.append("\u{26a0} TLS verification: DISABLED");
    }
    text.append("\n");
    text.append("Max connections: ");
    let max_text = decimal_string(max_connections);
    text.append(max_text.as_str());
    text
}

} // verus!
