use img_cache::{download_done, task_for, Cacher, DownloadState, Request, Task, UrlCacher};

fn s(x: &str) -> String {
    x.to_string()
}

#[test]
fn fetch_request_of_an_absent_locator_downloads_and_of_a_present_one_nothing() {
    let mut urls = UrlCacher::new(s("/c"));
    let images: Cacher<u32> = Cacher::new(4);
    let k = s("https://e.com/a.png");
    match task_for(Request::Fetch(k.clone()), false, &mut urls, &images) {
        Some(Task::Download { key, path }) => {
            assert_eq!(key, k);
            assert_eq!(path, "/c/https___e_com_a_png.png");
        },
        _ => panic!("a fetch of an absent locator must download"),
    }
    assert_eq!(urls.state(&k), Some(DownloadState::Downloading));
    download_done(&mut urls, k.clone(), true);
    assert!(task_for(Request::Fetch(k.clone()), false, &mut urls, &images).is_none());
    assert_eq!(urls.state(&k), Some(DownloadState::Present));
}

#[test]
fn fetch_request_for_a_file_on_disk_starts_nothing() {
    let mut urls = UrlCacher::new(s("/c"));
    let images: Cacher<u32> = Cacher::new(4);
    let k = s("https://e.com/a.png");
    assert!(task_for(Request::Fetch(k.clone()), true, &mut urls, &images).is_none());
    assert_eq!(urls.state(&k), Some(DownloadState::Present));
}

#[test]
fn load_request_becomes_a_decode_of_its_file() {
    let mut urls = UrlCacher::new(s("/c"));
    let images: Cacher<u32> = Cacher::new(4);
    match task_for(Request::Load(s("https://e.com/a.png")), false, &mut urls, &images) {
        Some(Task::Decode { key, path }) => {
            assert_eq!(key, "https://e.com/a.png");
            assert_eq!(path, "/c/https___e_com_a_png.png");
        },
        _ => panic!("a load request must give a decode"),
    }
}

#[test]
fn finished_downloads_are_recorded() {
    let mut urls = UrlCacher::new(s("/c"));
    let images: Cacher<u32> = Cacher::new(4);
    let k = s("a");
    task_for(Request::Fetch(k.clone()), false, &mut urls, &images);
    download_done(&mut urls, k.clone(), false);
    assert_eq!(urls.state(&k), None);
    task_for(Request::Fetch(k.clone()), false, &mut urls, &images);
    download_done(&mut urls, k.clone(), true);
    assert_eq!(urls.state(&k), Some(DownloadState::Present));
}

#[test]
fn fetch_request_queued_by_a_lookup_becomes_its_download() {
    let mut urls = UrlCacher::new(s("/c"));
    let images: Cacher<u32> = Cacher::new(4);
    let mut p = img_cache::Pending::new();
    let k = s("https://e.com/a.png");
    assert_eq!(urls.get_path(&k, false, &mut p), None);
    let reqs = p.drain(10);
    assert_eq!(reqs.len(), 1);
    let mut started = 0;
    for r in reqs {
        match task_for(r, false, &mut urls, &images) {
            Some(Task::Download { key, path }) => {
                assert_eq!(key, k);
                assert_eq!(path, "/c/https___e_com_a_png.png");
                started += 1;
            },
            _ => panic!("a fetch of a downloading locator must download"),
        }
    }
    assert_eq!(started, 1);
    assert_eq!(urls.state(&k), Some(DownloadState::Downloading));
}
