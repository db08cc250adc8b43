use img_cache::{DownloadState, Pending, Request, UrlCacher};

fn s(x: &str) -> String {
    x.to_string()
}

#[test]
fn unknown_locator_requests_one_download_however_often_it_is_looked_up() {
    let mut urls = UrlCacher::new(s("/c"));
    let mut p = Pending::new();
    let k = s("https://e.com/a.png");
    assert_eq!(urls.get_path(&k, false, &mut p), None);
    assert_eq!(urls.state(&k), Some(DownloadState::Downloading));
    assert_eq!(urls.get_path(&k, false, &mut p), None);
    assert_eq!(urls.get_path(&k, true, &mut p), None);
    let reqs = p.drain(10);
    assert_eq!(reqs.len(), 1);
    assert!(matches!(&reqs[0], Request::Fetch(x) if *x == k));
}

#[test]
fn file_on_disk_resolves_on_the_first_lookup() {
    let mut urls = UrlCacher::new(s("/c"));
    let mut p = Pending::new();
    let k = s("https://e.com/b.jpg");
    assert_eq!(urls.get_path(&k, true, &mut p), Some(s("/c/https___e_com_b_jpg.jpg")));
    assert_eq!(urls.state(&k), Some(DownloadState::Present));
    assert_eq!(p.len(), 0);
}

#[test]
fn one_download_per_locator_however_often_requested() {
    let mut urls = UrlCacher::new(s("/c"));
    let k = s("https://e.com/a.png");
    assert_eq!(urls.fetch_if_needed(&k, false), Some(s("/c/https___e_com_a_png.png")));
    for _ in 0..5 {
        assert_eq!(urls.fetch_if_needed(&k, false), None);
    }
    assert_eq!(urls.state(&k), Some(DownloadState::Downloading));
    let mut p = Pending::new();
    assert_eq!(urls.get_path(&k, false, &mut p), None);
    assert_eq!(p.len(), 0);
}

#[test]
fn file_already_on_disk_is_present_without_a_download() {
    let mut urls = UrlCacher::new(s("/c"));
    let k = s("https://e.com/b.jpg");
    assert_eq!(urls.fetch_if_needed(&k, true), None);
    assert_eq!(urls.state(&k), Some(DownloadState::Present));
    let mut p = Pending::new();
    assert_eq!(urls.get_path(&k, false, &mut p), Some(s("/c/https___e_com_b_jpg.jpg")));
    assert_eq!(p.len(), 0);
}

#[test]
fn completed_download_makes_the_file_present() {
    let mut urls = UrlCacher::new(s("/c"));
    let k = s("https://e.com/a.png");
    assert!(urls.fetch_if_needed(&k, false).is_some());
    urls.callback(k.clone());
    assert_eq!(urls.state(&k), Some(DownloadState::Present));
    let mut p = Pending::new();
    assert_eq!(urls.get_path(&k, false, &mut p), Some(s("/c/https___e_com_a_png.png")));
}

#[test]
fn failed_download_can_be_retried() {
    let mut urls = UrlCacher::new(s("/c"));
    let k = s("https://e.com/a.png");
    assert!(urls.fetch_if_needed(&k, false).is_some());
    urls.fetch_failed(&k);
    assert_eq!(urls.state(&k), None);
    assert!(urls.fetch_if_needed(&k, false).is_some());
}

#[test]
fn failure_report_leaves_a_present_file_alone() {
    let mut urls = UrlCacher::new(s("/c"));
    let k = s("https://e.com/a.png");
    urls.callback(k.clone());
    urls.fetch_failed(&k);
    assert_eq!(urls.state(&k), Some(DownloadState::Present));
}
