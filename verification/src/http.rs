//! Request routing and response building for the server around the pool.
//!
//! The server reads one buffer from a connection, picks a route from the
//! request line, and answers with a fixed-form response whose length header
//! must match its body. Reading and writing are the surrounding program's
//! business; the decisions and the bytes produced are verified here.

use vstd::prelude::*;

verus! {

/// Where a request line sends a request.
#[derive(Clone, Copy, PartialEq, Eq, Structural, Debug)]
pub enum RequestRoute {
    Get,
    Post,
    NotFound,
}

/// The request-line prefix that selects the GET route: `GET / HTTP/1.1\r\n`.
pub open spec fn get_prefix() -> Seq<u8> {
    seq![71u8, 69, 84, 32, 47, 32, 72, 84, 84, 80, 47, 49, 46, 49, 13, 10]
}

/// The request-line prefix that selects the POST route: `POST / HTTP/1.1\r\n`.
pub open spec fn post_prefix() -> Seq<u8> {
    seq![80u8, 79, 83, 84, 32, 47, 32, 72, 84, 84, 80, 47, 49, 46, 49, 13, 10]
}

/// Whether `b` begins with `p`.
pub open spec fn starts_with(b: Seq<u8>, p: Seq<u8>) -> bool {
    p.len() <= b.len() && b.subrange(0, p.len() as int) == p
}

/// The routing rule: a buffer beginning with the GET request line routes to
/// GET, one beginning with the POST request line routes to POST, anything
/// else is not found.
pub open spec fn route_spec(b: Seq<u8>) -> RequestRoute {
    if starts_with(b, get_prefix()) {
        RequestRoute::Get
    } else if starts_with(b, post_prefix()) {
        RequestRoute::Post
    } else {
        RequestRoute::NotFound
    }
}

/// Whether the buffer begins with the byte sequence `p`.
fn prefix_matches(b: &[u8], p: &Vec<u8>) -> (r: bool)
    ensures
        r == starts_with(b@, p@),
{
    if p.len() > b.len() {
        return false;
    }
    let mut i: usize = 0;
    while i < p.len()
        invariant
            i <= p@.len(),
            p@.len() <= b@.len(),
            forall|k: int| 0 <= k < i ==> b@[k] == p@[k],
        decreases p@.len() - i,
    {
        if b[i] != p[i] {
            proof {
                assert(b@.subrange(0, p@.len() as int)[i as int] == b@[i as int]);
            }
            return false;
        }
        i = i + 1;
    }
    proof {
        assert(b@.subrange(0, p@.len() as int) =~= p@);
    }
    true
}

/// The bytes of the GET request-line prefix.
fn get_prefix_bytes() -> (r: Vec<u8>)
    ensures
        r@ == get_prefix(),
{
    let mut v: Vec<u8> = Vec::new();
    v.push(71);
    v.push(69);
    v.push(84);
    v.push(32);
    v.push(47);
    v.push(32);
    v.push(72);
    v.push(84);
    v.push(84);
    v.push(80);
    v.push(47);
    v.push(49);
    v.push(46);
    v.push(49);
    v.push(13);
    v.push(10);
    proof {
        assert(v@ =~= get_prefix());
    }
    v
}

/// The bytes of the POST request-line prefix.
fn post_prefix_bytes() -> (r: Vec<u8>)
    ensures
        r@ == post_prefix(),
{
    let mut v: Vec<u8> = Vec::new();
    v.push(80);
    v.push(79);
    v.push(83);
    v.push(84);
    v.push(32);
    v.push(47);
    v.push(32);
    v.push(72);
    v.push(84);
    v.push(84);
    v.push(80);
    v.push(47);
    v.push(49);
    v.push(46);
    v.push(49);
    v.push(13);
    v.push(10);
    proof {
        assert(v@ =~= post_prefix());
    }
    v
}

/// Pick the route for one request buffer, by its request line alone.
pub fn route_request(buffer: &[u8]) -> (r: RequestRoute)
    ensures
        r == route_spec(buffer@),
{
    let get_line = get_prefix_bytes();
    if prefix_matches(buffer, &get_line) {
        return RequestRoute::Get;
    }
    let post_line = post_prefix_bytes();
    if prefix_matches(buffer, &post_line) {
        RequestRoute::Post
    } else {
        RequestRoute::NotFound
    }
}

/// The decimal digits of `n`, most significant first, as ASCII bytes.
pub open spec fn decimal(n: nat) -> Seq<u8>
    decreases n,
{
    if n < 10 {
        seq![(48 + n) as u8]
    } else {
        decimal(n / 10).push((48 + n % 10) as u8)
    }
}

/// The response head up to the length digits: `HTTP/1.1 200 OK\r\nContent-Length: `.
pub open spec fn ok_head() -> Seq<u8> {
    seq![
        72u8,
        84,
        84,
        80,
        47,
        49,
        46,
        49,
        32,
        50,
        48,
        48,
        32,
        79,
        75,
        13,
        10,
        67,
        111,
        110,
        116,
        101,
        110,
        116,
        45,
        76,
        101,
        110,
        103,
        116,
        104,
        58,
        32,
    ]
}

/// The blank line that ends the head: `\r\n\r\n`.
pub open spec fn head_end() -> Seq<u8> {
    seq![13u8, 10, 13, 10]
}

/// The whole OK response for `content`: status line, a Content-Length header
/// that counts exactly the body's bytes, the blank line, then the body.
pub open spec fn ok_response_spec(c: Seq<u8>) -> Seq<u8> {
    ok_head() + decimal(c.len()) + head_end() + c
}

/// Append the decimal digits of `n`, most significant first.
fn push_decimal(n: usize, out: &mut Vec<u8>)
    ensures
        final(out)@ == old(out)@ + decimal(n as nat),
    decreases n,
{
    if n < 10 {
        out.push(48 + (n as u8));
        proof {
            assert(out@ =~= old(out)@ + decimal(n as nat));
        }
    } else {
        push_decimal(n / 10, out);
        out.push(48 + ((n % 10) as u8));
        proof {
            assert(out@ =~= old(out)@ + decimal(n as nat));
        }
    }
}

/// Build the OK response carrying `content` as its body. The length header is
/// correct by construction: it holds the decimal byte count of the body.
pub fn ok_response(content: &Vec<u8>) -> (r: Vec<u8>)
    ensures
        r@ == ok_response_spec(content@),
{
    let mut r: Vec<u8> = Vec::new();
    r.push(72);
    r.push(84);
    r.push(84);
    r.push(80);
    r.push(47);
    r.push(49);
    r.push(46);
    r.push(49);
    r.push(32);
    r.push(50);
    r.push(48);
    r.push(48);
    r.push(32);
    r.push(79);
    r.push(75);
    r.push(13);
    r.push(10);
    r.push(67);
    r.push(111);
    r.push(110);
    r.push(116);
    r.push(101);
    r.push(110);
    r.push(116);
    r.push(45);
    r.push(76);
    r.push(101);
    r.push(110);
    r.push(103);
    r.push(116);
    r.push(104);
    r.push(58);
    r.push(32);
    proof {
        assert(r@ =~= ok_head());
    }
    push_decimal(content.len(), &mut r);
    r.push(13);
    r.push(10);
    r.push(13);
    r.push(10);
    let ghost head = r@;
    proof {
        assert(head =~= ok_head() + decimal(content@.len()) + head_end());
    }
    let mut i: usize = 0;
    while i < content.len()
        invariant
            i <= content@.len(),
            r@ == head + content@.subrange(0, i as int),
        decreases content@.len() - i,
    {
        r.push(content[i]);
        proof {
            assert(r@ =~= head + content@.subrange(0, i as int + 1));
        }
        i = i + 1;
    }
    proof {
        assert(content@.subrange(0, content@.len() as int) =~= content@);
        assert(r@ =~= ok_response_spec(content@));
    }
    r
}

} // verus!
