use parsing::cell::chr;
use parsing::cell::many1;
use parsing::cell::slice;
use parsing::cell::state;
use parsing::cell::take_until;
use parsing::cell::Cell;
use parsing::parser::Parse;

struct RequestBuilder<'a> {
    method: Option<&'a str>,
    path: Option<&'a str>,
    http: Option<&'a str>,
    headers: Vec<(&'a str, &'a str)>,
}

struct Request<'a> {
    method: &'a str,
    path: &'a str,
    http: &'a str,
    headers: Vec<(&'a str, &'a str)>,
}

impl<'a> RequestBuilder<'a> {
    pub fn new() -> Self {
        Self {
            method: None,
            path: None,
            http: None,
            headers: Vec::new(),
        }
    }

    pub fn build(self) -> Request<'a> {
        Request {
            method: self.method.unwrap(),
            path: self.path.unwrap(),
            http: self.http.unwrap(),
            headers: self.headers,
        }
    }
}

fn http_parser<'a>() -> impl Parse<'a, Output = Request<'a>> {
    state(|| RequestBuilder::new())
        .then(parse_request())
        .map(|(mut builder, (method, path, version))| {
            builder.method = Some(method);
            builder.path = Some(path);
            builder.http = Some(version);
            builder
        })
        .then(parse_headers())
        .skip(slice(b"\r\n"))
        .map(|(mut builder, headers)| {
            builder.headers = headers;
            builder.build()
        })
}

fn parse_request<'a>() -> Cell<impl Parse<'a, Output = (&'a str, &'a str, &'a str)>> {
    let method = slice(b"GET")
        .or(slice(b"HEAD"))
        .or(slice(b"POST"))
        .or(slice(b"PUT"))
        .or(slice(b"DELETE"))
        .or(slice(b"CONNECT"))
        .or(slice(b"OPTIONS"))
        .or(slice(b"TRACE"))
        .or(slice(b"PATCH"));

    let method = method.map(|bytes| to_str(bytes));
    let path = take_until(chr(' ')).map(|bytes| to_str(bytes));
    let version = take_until(slice(b"\r\n")).map(|bytes| to_str(bytes));

    method
        .skip(chr(' '))
        .then(path)
        .skip(chr(' '))
        .then(version)
        .skip(slice(b"\r\n"))
        .map(|((a, b), c)| (a, b, c))
}

fn parse_headers<'a>() -> Cell<impl Parse<'a, Output = Vec<(&'a str, &'a str)>>> {
    let header = take_until(chr(':'))
        .skip(slice(b": "))
        .then(take_until(slice(b"\r\n")))
        .map(|(key, value)| (to_str(key), to_str(value)))
        .skip(slice(b"\r\n"));

    many1(header)
}

fn to_str<'a>(bytes: &'a [u8]) -> &'a str {
    std::str::from_utf8(bytes).unwrap()
}

#[test]
fn http_test() {
    let bytes = "GET /index.html HTTP/1.1\r\n\
        User-Agent: Mozilla/4.0 (compatible; MSIE5.01; Windows NT)\r\n\
        Accept-Language: en-us\r\n\
        Accept-Encoding: gzip, deflate\r\n\
        Connection: Keep-Alive\r\n\r\n"
        .as_bytes();
    let parser = http_parser();

    match parser.parse(bytes) {
        Ok((xs, request)) => {
            assert_eq!(request.method, "GET");
            assert_eq!(request.path, "/index.html");
            assert_eq!(request.http, "HTTP/1.1");
            assert_eq!(
                request.headers,
                vec![
                    (
                        "User-Agent",
                        "Mozilla/4.0 (compatible; MSIE5.01; Windows NT)"
                    ),
                    ("Accept-Language", "en-us"),
                    ("Accept-Encoding", "gzip, deflate"),
                    ("Connection", "Keep-Alive")
                ]
            );
            assert_eq!(xs, &[] as &[u8]);
        }
        Err(xs) => {
            panic!("failed to parse bytes: {:?}", to_str(xs));
        }
    }
}

#[test]
fn http_well_formed_consumes_everything() {
    let bytes = "POST /submit HTTP/1.0\r\nHost: example\r\n\r\n".as_bytes();
    let parser = http_parser();
    let (rest, request) = parser.parse(bytes).unwrap();
    assert_eq!(request.method, "POST");
    assert_eq!(request.path, "/submit");
    assert_eq!(request.http, "HTTP/1.0");
    assert_eq!(request.headers, vec![("Host", "example")]);
    assert_eq!(rest.len(), 0);
}

#[test]
fn http_missing_blank_line_fails() {
    // Truncated input: the terminator matcher fails at the buffer's end,
    // so the residual is the empty trailing slice.
    let bytes = "GET /index.html HTTP/1.1\r\nHost: example\r\n".as_bytes();
    let parser = http_parser();
    match parser.parse(bytes) {
        Ok(_) => panic!("a request without the trailing blank line must not parse"),
        Err(residual) => assert_eq!(residual, b"" as &[u8]),
    }
}

#[test]
fn http_malformed_tail_fails_with_residual() {
    // The blank line is missing and malformed bytes follow the headers:
    // parsing fails and the residual marks where matching stopped.
    let bytes = "GET /index.html HTTP/1.1\r\nHost: example\r\njunk".as_bytes();
    let parser = http_parser();
    match parser.parse(bytes) {
        Ok(_) => panic!("a request without the trailing blank line must not parse"),
        Err(residual) => assert_eq!(residual, b"junk" as &[u8]),
    }
}

#[test]
fn http_unknown_method_fails() {
    let bytes = "BREW /pot HTTP/1.1\r\nHost: example\r\n\r\n".as_bytes();
    let parser = http_parser();
    match parser.parse(bytes) {
        Ok(_) => panic!("an unrecognized method token must not parse"),
        Err(residual) => assert!(!residual.is_empty()),
    }
}

#[test]
fn http_parse_twice_is_identical() {
    let bytes = "GET /a HTTP/1.1\r\nK: v\r\n\r\n".as_bytes();
    let parser = http_parser();
    let (rest1, req1) = parser.parse(bytes).unwrap();
    let (rest2, req2) = parser.parse(bytes).unwrap();
    assert_eq!(rest1, rest2);
    assert_eq!(req1.method, req2.method);
    assert_eq!(req1.path, req2.path);
    assert_eq!(req1.http, req2.http);
    assert_eq!(req1.headers, req2.headers);
}
