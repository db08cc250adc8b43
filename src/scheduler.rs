//! The update cycle's side of the request queue: what background task each
//! queued request calls for, and how a finished download is recorded.
use vstd::prelude::*;
use crate::image_cache::Cacher;
use crate::locator::file_path_of;
use crate::request::{Need, Request};
use crate::url_cache::{fetch_step, DownloadState, UrlCacher};

verus! {

/// A background task for the host to run.
pub enum Task {
    /// Download the content of `key` into the file `path`.
    Download { key: String, path: String },
    /// Read the file `path` and decode it as the content of `key`.
    Decode { key: String, path: String },
}

/// Decides the task for `request`, taken out of the queue in an update
/// cycle; `on_disk` tells whether the file of a request to fetch already
/// exists. A fetch of a downloading locator (as the render path records it
/// when it asks) starts its download; a fetch of an absent locator goes by
/// [`UrlCacher::fetch_if_needed`]; a fetch of a present one starts nothing.
/// A load always reads the locator's file.
pub fn task_for<H>(request: Request, on_disk: bool, urls: &mut UrlCacher, images: &Cacher<H>) -> (r:
    Option<Task>)
    requires
        old(urls).wf(),
    ensures
        final(urls).wf(),
        final(urls).dir_view() == old(urls).dir_view(),
        match request@ {
            Need::Fetch(k) => if old(urls)@.get(k) == Some(DownloadState::Downloading) {
                &&& final(urls)@ == old(urls)@
                &&& r matches Some(Task::Download { key, path }) && key@ == k && path@
                    == file_path_of(old(urls).dir_view(), k)
            } else {
                &&& final(urls)@ == fetch_step(old(urls)@, k, on_disk).0
                &&& match r {
                    Some(Task::Download { key, path }) => fetch_step(old(urls)@, k, on_disk).1
                        && key@ == k && path@ == file_path_of(old(urls).dir_view(), k),
                    Some(Task::Decode { .. }) => false,
                    None => !fetch_step(old(urls)@, k, on_disk).1,
                }
            },
            Need::Load(k) => {
                &&& final(urls)@ == old(urls)@
                &&& r matches Some(Task::Decode { key, path }) && key@ == k && path@
                    == file_path_of(old(urls).dir_view(), k)
            },
        },
{
    match request {
        Request::Fetch(key) => {
            if urls.state(&key) == Some(DownloadState::Downloading) {
                let path = urls.file_path(&key);
                Some(Task::Download { key, path })
            } else {
                match urls.fetch_if_needed(&key, on_disk) {
                    Some(path) => Some(Task::Download { key, path }),
                    None => None,
                }
            }
        },
        Request::Load(key) => {
            let path = images.fetch(&key, urls);
            Some(Task::Decode { key, path })
        },
    }
}

/// Records how the download of `key` ended: on success its file is present;
/// on failure a downloading locator becomes absent again, to be retried
/// when it is next requested.
pub fn download_done(urls: &mut UrlCacher, key: String, ok: bool)
    requires
        old(urls).wf(),
    ensures
        final(urls).wf(),
        final(urls).dir_view() == old(urls).dir_view(),
        ok ==> final(urls)@ == old(urls)@.insert(key@, DownloadState::Present),
        !ok ==> final(urls)@ == if old(urls)@.get(key@) == Some(DownloadState::Downloading) {
            old(urls)@.remove(key@)
        } else {
            old(urls)@
        },
{
    if ok {
        urls.callback(key);
    } else {
        urls.fetch_failed(&key);
    }
}

} // verus!
