//! The stateless request handler's decisions: which of the two fixed
//! response templates an incoming request buffer selects. This is the one
//! example collaborator that gets submitted to the pool as work; reading
//! the connection and the files is the surrounding program's concern.

use vstd::prelude::*;

verus! {

/// The request line that selects the index page, as raw bytes:
/// `GET / HTTP/1.1\r\n`.
pub open spec fn get_root_prefix() -> Seq<u8> {
    seq![71u8, 69u8, 84u8, 32u8, 47u8, 32u8, 72u8, 84u8, 84u8, 80u8, 47u8, 49u8, 46u8, 49u8, 13u8, 10u8]
}

/// True exactly when `request` begins with the `GET / HTTP/1.1\r\n`
/// request line.
pub open spec fn spec_is_get_root(request: Seq<u8>) -> bool {
    request.len() >= 16 && request.subrange(0, 16) == get_root_prefix()
}

/// Decides whether an incoming request buffer asks for the root page.
pub fn is_get_root(request: &[u8]) -> (r: bool)
    ensures
        r == spec_is_get_root(request@),
{
    if request.len() < 16 {
        return false;
    }
    let prefix: [u8; 16] = [71u8, 69u8, 84u8, 32u8, 47u8, 32u8, 72u8, 84u8, 84u8, 80u8, 47u8, 49u8, 46u8, 49u8, 13u8, 10u8];
    let mut i: usize = 0;
    while i < 16
        invariant
            i <= 16,
            request@.len() >= 16,
            prefix@ == get_root_prefix(),
            forall|j: int| 0 <= j < i ==> request@[j] == get_root_prefix()[j],
        decreases 16 - i,
    {
        if request[i] != prefix[i] {
            assert(request@.subrange(0, 16)[i as int] != get_root_prefix()[i as int]);
            return false;
        }
        i += 1;
    }
    proof {
        assert(request@.subrange(0, 16) =~= get_root_prefix());
    }
    true
}

/// Which of the two fixed response templates a request selects.
#[derive(Clone, Copy, PartialEq, Eq, Structural, Debug)]
pub enum Template {
    Found,
    NotFound,
}

/// Selects the response template for an incoming request buffer: the index
/// page for a `GET / HTTP/1.1` request line, the not-found page for
/// everything else.
pub fn select_template(request: &[u8]) -> (t: Template)
    ensures
        t is Found <==> spec_is_get_root(request@),
{
    if is_get_root(request) {
        Template::Found
    } else {
        Template::NotFound
    }
}

/// The status line of a template, as bytes: `HTTP/1.1 200 OK` or
/// `HTTP/1.1 404 NOT FOUND`.
pub open spec fn status_line_of(t: Template) -> Seq<u8> {
    match t {
        Template::Found => seq![
            72u8, 84u8, 84u8, 80u8, 47u8, 49u8, 46u8, 49u8, 32u8, 50u8, 48u8, 48u8, 32u8, 79u8,
            75u8,
        ],
        Template::NotFound => seq![
            72u8, 84u8, 84u8, 80u8, 47u8, 49u8, 46u8, 49u8, 32u8, 52u8, 48u8, 52u8, 32u8, 78u8,
            79u8, 84u8, 32u8, 70u8, 79u8, 85u8, 78u8, 68u8,
        ],
    }
}

/// The bytes of `\r\nContent-Length: `, which stand between the status line
/// and the decimal body length.
pub open spec fn content_length_header() -> Seq<u8> {
    seq![
        13u8, 10u8, 67u8, 111u8, 110u8, 116u8, 101u8, 110u8, 116u8, 45u8, 76u8, 101u8, 110u8,
        103u8, 116u8, 104u8, 58u8, 32u8,
    ]
}

/// The blank line separating the header from the body: `\r\n\r\n`.
pub open spec fn blank_line() -> Seq<u8> {
    seq![13u8, 10u8, 13u8, 10u8]
}

/// The decimal digits of `n`, most significant first, as ASCII bytes, with
/// no leading zeros (a single `0` for zero).
pub open spec fn decimal_digits(n: nat) -> Seq<u8>
    decreases n,
{
    if n < 10 {
        seq![(48 + n) as u8]
    } else {
        decimal_digits(n / 10).push((48 + n % 10) as u8)
    }
}

/// The whole response for template `t` and body `contents`: status line,
/// `Content-Length` header with the body's length in decimal, blank line,
/// body.
pub open spec fn response_bytes(t: Template, contents: Seq<u8>) -> Seq<u8> {
    status_line_of(t) + content_length_header() + decimal_digits(contents.len()) + blank_line()
        + contents
}

/// Appends every byte of `bytes` to `out`, in order.
fn push_bytes(out: &mut Vec<u8>, bytes: &[u8])
    ensures
        final(out)@ == old(out)@ + bytes@,
{
    let ghost o0 = out@;
    let mut i: usize = 0;
    while i < bytes.len()
        invariant
            i <= bytes@.len(),
            out@ == o0 + bytes@.take(i as int),
        decreases bytes@.len() - i,
    {
        proof {
            assert(o0 + bytes@.take(i + 1) =~= (o0 + bytes@.take(i as int)).push(
                bytes@[i as int],
            ));
        }
        out.push(bytes[i]);
        i += 1;
    }
    proof {
        assert(o0 + bytes@.take(bytes@.len() as int) =~= o0 + bytes@);
    }
}

/// Writes `n` in decimal, most significant digit first.
pub fn format_decimal(n: usize) -> (r: Vec<u8>)
    ensures
        r@ == decimal_digits(n as nat),
{
    let mut digits: Vec<u8> = Vec::new();
    let mut m: usize = n;
    loop
        invariant
            m <= n,
            decimal_digits(n as nat) == decimal_digits(m as nat) + digits@,
        ensures
            m < 10,
            decimal_digits(n as nat) == decimal_digits(m as nat) + digits@,
        decreases m,
    {
        if m < 10 {
            break ;
        }
        let d: u8 = 48 + (m % 10) as u8;
        proof {
            assert(decimal_digits(m as nat) == decimal_digits((m as nat) / 10).push(d));
            assert(decimal_digits((m as nat) / 10) + digits@.insert(0, d) =~= decimal_digits(
                (m as nat) / 10,
            ).push(d) + digits@);
            assert((m as nat) / 10 == (m / 10) as nat);
        }
        digits.insert(0, d);
        m = m / 10;
    }
    let d: u8 = 48 + (m as u8);
    proof {
        assert(decimal_digits(m as nat) =~= seq![d]);
        assert(decimal_digits(m as nat) + digits@ =~= digits@.insert(0, d));
    }
    digits.insert(0, d);
    digits
}

/// Builds the whole response for template `t` around the file contents the
/// caller read for it: status line, `Content-Length` with the body's exact
/// decimal length, blank line, body.
pub fn build_response(t: Template, contents: &[u8]) -> (r: Vec<u8>)
    ensures
        r@ == response_bytes(t, contents@),
{
    let status_found: [u8; 15] = [
        72u8, 84u8, 84u8, 80u8, 47u8, 49u8, 46u8, 49u8, 32u8, 50u8, 48u8, 48u8, 32u8, 79u8, 75u8,
    ];
    let status_not_found: [u8; 22] = [
        72u8, 84u8, 84u8, 80u8, 47u8, 49u8, 46u8, 49u8, 32u8, 52u8, 48u8, 52u8, 32u8, 78u8, 79u8,
        84u8, 32u8, 70u8, 79u8, 85u8, 78u8, 68u8,
    ];
    let header: [u8; 18] = [
        13u8, 10u8, 67u8, 111u8, 110u8, 116u8, 101u8, 110u8, 116u8, 45u8, 76u8, 101u8, 110u8,
        103u8, 116u8, 104u8, 58u8, 32u8,
    ];
    let blank: [u8; 4] = [13u8, 10u8, 13u8, 10u8];
    let mut r: Vec<u8> = Vec::new();
    match t {
        Template::Found => {
            push_bytes(&mut r, &status_found);
            proof {
                assert(r@ =~= status_line_of(t));
            }
        },
        Template::NotFound => {
            push_bytes(&mut r, &status_not_found);
            proof {
                assert(r@ =~= status_line_of(t));
            }
        },
    }
    push_bytes(&mut r, &header);
    let length = format_decimal(contents.len());
    push_bytes(&mut r, length.as_slice());
    push_bytes(&mut r, &blank);
    push_bytes(&mut r, contents);
    proof {
        assert(r@ =~= response_bytes(t, contents@));
    }
    r
}

/// The path of the static file a template serves.
pub fn file_path(t: Template) -> (p: &'static str)
    ensures
        t is Found ==> p@ == "views/index.html"@,
        t is NotFound ==> p@ == "views/404.html"@,
{
    match t {
        Template::Found => "views/index.html",
        Template::NotFound => "views/404.html",
    }
}

} // verus!
