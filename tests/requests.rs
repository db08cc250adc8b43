use img_cache::{Pending, Request};

fn key(r: &Request) -> String {
    match r {
        Request::Fetch(k) => format!("fetch {k}"),
        Request::Load(k) => format!("load {k}"),
    }
}

#[test]
fn drain_takes_the_oldest_in_order_and_keeps_the_rest() {
    let mut p = Pending::new();
    p.notify(Request::Fetch("a".to_string()));
    p.notify(Request::Load("b".to_string()));
    p.notify(Request::Fetch("c".to_string()));
    let first: Vec<String> = p.drain(2).iter().map(key).collect();
    assert_eq!(first, vec!["fetch a", "load b"]);
    assert_eq!(p.len(), 1);
    let second: Vec<String> = p.drain(500).iter().map(key).collect();
    assert_eq!(second, vec!["fetch c"]);
    assert_eq!(p.len(), 0);
    assert!(p.drain(500).is_empty());
}
