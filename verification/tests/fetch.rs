use depgraph::fetch::{classify, classify_body, FetchResult, Transfer};

fn received(body: &[u8]) -> Transfer {
    Transfer::Ended { succeeded: true, status: "exit status: 0".to_string(), body: body.to_vec() }
}

#[test]
fn classify_tells_absence_from_the_body() {
    assert_eq!(classify(received(b"404: Not Found")), FetchResult::NotFound);
    assert_eq!(classify_body("404: Not Found".to_string()), FetchResult::NotFound);
}

#[test]
fn classify_keeps_any_other_body() {
    assert_eq!(
        classify(received(b"repositories: {}")),
        FetchResult::Found("repositories: {}".to_string())
    );
    assert_eq!(classify(received(b"")), FetchResult::Found(String::new()));
    assert_eq!(
        classify(received(b"404: Not Found\n")),
        FetchResult::Found("404: Not Found\n".to_string())
    );
    assert_eq!(
        classify_body("404: not found".to_string()),
        FetchResult::Found("404: not found".to_string())
    );
}

#[test]
fn classify_decodes_the_body() {
    assert_eq!(
        classify(received(&[0x6e, 0x61, 0xc3, 0xaf, 0x76, 0x65, 0xe2, 0x82, 0xac, 0xf0, 0x9f, 0x98, 0x80])),
        FetchResult::Found("na\u{ef}ve\u{20ac}\u{1f600}".to_string())
    );
}

#[test]
fn classify_takes_a_body_that_is_not_utf8_for_a_failure() {
    let bodies: [&[u8]; 4] = [&[0xff], &[0x61, 0xc3], &[0xed, 0xa0, 0x80], &[0xc0, 0xaf]];
    for body in bodies {
        assert_eq!(
            classify(received(body)),
            FetchResult::TransportFailure("the body is not valid UTF-8".to_string())
        );
    }
}

#[test]
fn classify_takes_an_end_without_success_for_a_failure() {
    let transfer = Transfer::Ended {
        succeeded: false,
        status: "exit status: 6".to_string(),
        body: b"repositories: {}".to_vec(),
    };
    assert_eq!(classify(transfer), FetchResult::TransportFailure("exit status: 6".to_string()));
    let absent = Transfer::Ended {
        succeeded: false,
        status: "exit status: 22".to_string(),
        body: b"404: Not Found".to_vec(),
    };
    assert_eq!(classify(absent), FetchResult::TransportFailure("exit status: 22".to_string()));
}

#[test]
fn classify_passes_a_failure_on() {
    assert_eq!(
        classify(Transfer::NotMade("could not resolve host".to_string())),
        FetchResult::TransportFailure("could not resolve host".to_string())
    );
    assert_eq!(
        classify(Transfer::NotMade("404: Not Found".to_string())),
        FetchResult::TransportFailure("404: Not Found".to_string())
    );
}
