//! Identity chain: resolves an observed event's task key.
//!
//! The first non-empty signal in priority order is the grouping identity:
//! the document path, then the canonical page of the URL, then the window
//! title, then the application. Confidence is kept in hundredths.

use vstd::prelude::*;
use crate::chars::{before_first, before_first_char, contains_char, has_char, slice};
use crate::ledger::event::ObservedEvent;
use crate::ledger::pages::{canonical_page, canonical_page_of, opt_text, strip_scheme,
    strip_www, strip_www_chars};
use crate::text::{blank, chars_of, is_blank, starts_with, str_eq, string_of};

verus! {

/// The resolved identity of one event.
#[derive(Debug, Clone, PartialEq, Eq)]
pub struct TaskKey {
    pub document_path: Option<String>,
    /// The canonical page identity of the active URL (never the bare host).
    pub page: Option<String>,
    pub window_title: Option<String>,
    /// The URL host, for display and search only — never grouping.
    pub url_host: Option<String>,
    pub app_name: String,
    /// How much the identity is trusted, in hundredths.
    pub confidence: u32,
}

/// The content of a [`TaskKey`], its texts as characters.
pub struct KeyModel {
    pub document_path: Option<Seq<char>>,
    pub page: Option<Seq<char>>,
    pub window_title: Option<Seq<char>>,
    pub url_host: Option<Seq<char>>,
    pub app_name: Seq<char>,
    pub confidence: u32,
}

impl View for TaskKey {
    type V = KeyModel;

    open spec fn view(&self) -> KeyModel {
        KeyModel {
            document_path: opt_text(self.document_path),
            page: opt_text(self.page),
            window_title: opt_text(self.window_title),
            url_host: opt_text(self.url_host),
            app_name: self.app_name@,
            confidence: self.confidence,
        }
    }
}

/// The resolver of task keys.
pub struct IdentityChain;

/// A text that is present and not blank.
pub open spec fn filled(o: Option<String>) -> Option<Seq<char>> {
    match o {
        Some(s) => if blank(s@) {
            None
        } else {
            Some(s@)
        },
        None => None,
    }
}

/// The host of a URL: after the scheme, before the first `/`, without
/// leading `www.`; only a dotted, non-empty host counts.
pub open spec fn host_of(u: Seq<char>) -> Option<Seq<char>> {
    match strip_scheme(u) {
        None => None,
        Some(rest) => {
            let h = strip_www(before_first(rest, '/'));
            if h.len() == 0 || !has_char(h, '.') {
                None
            } else {
                Some(h)
            }
        },
    }
}

/// The canonical page of an event's URL, when it has a non-blank one.
pub open spec fn event_page(e: ObservedEvent) -> Option<Seq<char>> {
    match filled(e.url) {
        Some(u) => canonical_page_of(u),
        None => None,
    }
}

/// The window title, when it is not blank.
pub open spec fn event_title(e: ObservedEvent) -> Option<Seq<char>> {
    if blank(e.window_title@) {
        None
    } else {
        Some(e.window_title@)
    }
}

/// The confidence, in hundredths, of the strongest signal present.
pub open spec fn event_confidence(e: ObservedEvent) -> u32 {
    if filled(e.document_path) is Some {
        85
    } else if event_page(e) is Some {
        80
    } else if event_title(e) is Some {
        70
    } else {
        60
    }
}

/// The key an event resolves to.
pub open spec fn key_of(e: ObservedEvent) -> KeyModel {
    KeyModel {
        document_path: filled(e.document_path),
        page: event_page(e),
        window_title: event_title(e),
        url_host: match filled(e.url) {
            Some(u) => host_of(u),
            None => None,
        },
        app_name: e.app_name@,
        confidence: event_confidence(e),
    }
}

/// Two keys name the same resource: the first signal both carry decides.
pub open spec fn same_work_of(a: KeyModel, b: KeyModel) -> bool {
    if a.document_path is Some && b.document_path is Some {
        a.document_path == b.document_path
    } else if a.page is Some && b.page is Some {
        a.page == b.page
    } else if a.window_title is Some && b.window_title is Some {
        a.window_title == b.window_title
    } else {
        a.app_name == b.app_name
    }
}

fn filled_text(o: &Option<String>) -> (r: Option<String>)
    ensures
        opt_text(r) == filled(*o),
{
    match o {
        Some(s) => if is_blank(s.as_str()) {
            None
        } else {
            Some(s.clone())
        },
        None => None,
    }
}

/// Extracts the host of a URL: `https://www.example.com/path` gives
/// `example.com`.
pub fn extract_host(url: &str) -> (r: Option<String>)
    ensures
        opt_text(r) == host_of(url@),
{
    let u = chars_of(url);
    let stripped: Vec<char> = if starts_with(url, "https://") {
        let n = chars_of("https://").len();
        slice(&u, n, u.len())
    } else if starts_with(url, "http://") {
        let n = chars_of("http://").len();
        slice(&u, n, u.len())
    } else {
        return None;
    };
    let host = strip_www_chars(&before_first_char(&stripped, '/'));
    if host.len() == 0 || !contains_char(&host, '.') {
        None
    } else {
        Some(string_of(&host))
    }
}

fn same_text(a: &String, b: &String) -> (r: bool)
    ensures
        r == (a@ == b@),
{
    str_eq(a.as_str(), b.as_str())
}

impl IdentityChain {
    /// Resolves an event's task key by walking the identity chain.
    pub fn resolve(event: &ObservedEvent) -> (r: TaskKey)
        ensures
            opt_text(r.document_path) == filled(event.document_path),
            opt_text(r.page) == event_page(*event),
            opt_text(r.window_title) == event_title(*event),
            opt_text(r.url_host) == match filled(event.url) {
                Some(u) => host_of(u),
                None => None,
            },
            r.app_name@ == event.app_name@,
            r.confidence == event_confidence(*event),
            r@ == key_of(*event),
    {
        let document_path = filled_text(&event.document_path);
        let url = filled_text(&event.url);
        let page = match &url {
            Some(u) => canonical_page(u.as_str()),
            None => None,
        };
        let url_host = match &url {
            Some(u) => extract_host(u.as_str()),
            None => None,
        };
        let window_title = if is_blank(event.window_title.as_str()) {
            None
        } else {
            Some(event.window_title.clone())
        };
        let confidence: u32 = if document_path.is_some() {
            85
        } else if page.is_some() {
            80
        } else if window_title.is_some() {
            70
        } else {
            60
        };
        TaskKey {
            document_path,
            page,
            window_title,
            url_host,
            app_name: event.app_name.clone(),
            confidence,
        }
    }

    /// Whether two task keys refer to the same resource: the first signal
    /// both keys carry, in chain order, decides.
    pub fn same_work(a: &TaskKey, b: &TaskKey) -> (r: bool)
        ensures
            r == same_work_of(a@, b@),
    {
        if let (Some(a_doc), Some(b_doc)) = (&a.document_path, &b.document_path) {
            return same_text(a_doc, b_doc);
        }
        if let (Some(a_page), Some(b_page)) = (&a.page, &b.page) {
            return same_text(a_page, b_page);
        }
        if let (Some(a_title), Some(b_title)) = (&a.window_title, &b.window_title) {
            return same_text(a_title, b_title);
        }
        same_text(&a.app_name, &b.app_name)
    }
}

/// Every key names the same resource as itself, and the relation is
/// symmetric.
pub proof fn lemma_same_work_reflexive_symmetric(a: KeyModel, b: KeyModel)
    ensures
        same_work_of(a, a),
        same_work_of(a, b) == same_work_of(b, a),
{
}

/// The document path outranks everything: two events on the same
/// document are the same work whatever their apps, titles and URLs, and
/// two events on different documents never are.
pub proof fn lemma_document_decides(a: KeyModel, b: KeyModel)
    requires
        a.document_path is Some,
        b.document_path is Some,
    ensures
        same_work_of(a, b) == (a.document_path == b.document_path),
{
}

} // verus!
