use sd_req::http::{pick_client, request_method, ClientChoice, HttpMethod};

fn s(x: &str) -> String {
    x.to_string()
}

#[test]
fn methods_by_name() {
    assert_eq!(request_method(&s("post")), HttpMethod::Post);
    assert_eq!(request_method(&s("Put")), HttpMethod::Put);
    assert_eq!(request_method(&s("DELETE")), HttpMethod::Delete);
    assert_eq!(request_method(&s("GET")), HttpMethod::Get);
    assert_eq!(request_method(&s("patch")), HttpMethod::Get);
}

#[test]
fn pool_grows_then_reuses() {
    assert_eq!(pick_client(&vec![], 1), ClientChoice::AddToPool);
    assert_eq!(pick_client(&vec![], 0), ClientChoice::AddToPool);
    assert_eq!(pick_client(&vec![true], 2), ClientChoice::AddToPool);
    assert_eq!(pick_client(&vec![false, true, true], 1), ClientChoice::Reuse(1));
    assert_eq!(pick_client(&vec![true], -4), ClientChoice::Reuse(0));
    assert_eq!(pick_client(&vec![false, false], 2), ClientChoice::Unpooled);
}
