//! The URLs a query fetches, with the credentials that go with them.
use vstd::prelude::*;

verus! {

/// One URL to fetch once.
#[derive(Debug, Clone)]
pub struct SingleUrlCaller {
    pub url: String,
    pub username: Option<String>,
    pub password: Option<String>,
}

impl SingleUrlCaller {
    pub fn new(url: String, username: Option<String>, password: Option<String>) -> (r: SingleUrlCaller)
        ensures
            r.url == url,
            r.username == username,
            r.password == password,
    {
        SingleUrlCaller { url, username, password }
    }
}

/// A first URL, followed by the next links that the responses give.
#[derive(Debug, Clone)]
pub struct MultiUrlCaller {
    pub starting_url: String,
    pub username: Option<String>,
    pub password: Option<String>,
}

impl MultiUrlCaller {
    pub fn new(starting_url: String, username: Option<String>, password: Option<String>) -> (r: MultiUrlCaller)
        ensures
            r.starting_url == starting_url,
            r.username == username,
            r.password == password,
    {
        MultiUrlCaller { starting_url, username, password }
    }

    /// The URL of the first page.
    pub fn starting_link_marker(&self) -> (r: &String)
        ensures
            *r == self.starting_url,
    {
        &self.starting_url
    }
}

} // verus!
