//! The ledger's input records: attention events and witnessed saves.

use vstd::prelude::*;

verus! {

/// One attention event as the ledger receives it.
#[derive(Debug, Clone, PartialEq, Eq)]
pub struct ObservedEvent {
    /// Epoch milliseconds.
    pub timestamp_ms: u64,
    /// The application's localized name.
    pub app_name: String,
    /// The focused window's title text.
    pub window_title: String,
    /// The active URL, if any.
    pub url: Option<String>,
    /// The document file path, if any.
    pub document_path: Option<String>,
    /// Whether the person typed during this event.
    pub typed: bool,
    /// Dwell duration in milliseconds.
    pub dwell_ms: u64,
    /// Content-free input counters observed with this event.
    pub keys: u64,
    pub clicks: u64,
    pub scrolls: u64,
}

/// The content of an [`ObservedEvent`], its texts as characters.
pub struct EventModel {
    pub timestamp_ms: u64,
    pub app_name: Seq<char>,
    pub window_title: Seq<char>,
    pub url: Option<Seq<char>>,
    pub document_path: Option<Seq<char>>,
    pub typed: bool,
    pub dwell_ms: u64,
    pub keys: u64,
    pub clicks: u64,
    pub scrolls: u64,
}

/// The characters of an optional string.
pub open spec fn opt_chars(o: Option<String>) -> Option<Seq<char>> {
    match o {
        Some(s) => Some(s@),
        None => None,
    }
}

impl View for ObservedEvent {
    type V = EventModel;

    open spec fn view(&self) -> EventModel {
        EventModel {
            timestamp_ms: self.timestamp_ms,
            app_name: self.app_name@,
            window_title: self.window_title@,
            url: opt_chars(self.url),
            document_path: opt_chars(self.document_path),
            typed: self.typed,
            dwell_ms: self.dwell_ms,
            keys: self.keys,
            clicks: self.clicks,
            scrolls: self.scrolls,
        }
    }
}

/// A witnessed file save, held apart from attention events.
#[derive(Debug, Clone, PartialEq, Eq)]
pub struct ProductionSave {
    /// Epoch milliseconds.
    pub timestamp_ms: u64,
    /// The absolute path of the saved file.
    pub path: String,
}

} // verus!
