//! Entries of the catalog of files: their feed, their trading day and the
//! name they are saved under.

use crate::calendar::CalendarDate;
use crate::text::same_text;
use crate::token::{
    compact_reading, hyphenated, hyphenated_text, is_compact_digits, is_hyphenated_digits,
    lenient_reading, parse_with_format, COMPACT_FORMAT,
};
use vstd::prelude::*;
use vstd::string::StringExecFns;

verus! {

/// One file of the catalog.
#[derive(Debug, PartialEq, Eq)]
pub struct HistEntry {
    /// Where the file is fetched from.
    pub link: String,
    /// The kind of feed: `TOPS`, `DEEP` or `DPLS`.
    pub feed: String,
    /// The trading day, in the compact form.
    pub date: String,
    /// The version of the feed's format.
    pub version: String,
    /// The size of the file in bytes.
    pub size: u64,
    /// The position of the trading day in the catalog.
    pub trading_day: usize,
}

/// The trading day that `text` names, if any.
///
/// A text of eight digits names the day with that year, month and day of the
/// month where it exists; the form with hyphens names none. On any other text
/// the reading is chrono's under the compact format, kept for a year from 0
/// to 9999.
pub open spec fn trading_date_of(text: Seq<char>) -> Option<CalendarDate> {
    if is_compact_digits(text) {
        compact_reading(text)
    } else if is_hyphenated_digits(text) {
        None
    } else {
        match lenient_reading(text, COMPACT_FORMAT@) {
            Some(date) => if 0 <= date.year <= 9999 {
                Some(date)
            } else {
                None
            },
            None => None,
        }
    }
}

/// Whether a feed of the kind `feed` is asked for by the three switches.
pub open spec fn feed_is_selected(feed: Seq<char>, tops: bool, deep: bool, dpls: bool) -> bool {
    (deep && feed == "DEEP"@) || (dpls && feed == "DPLS"@) || (tops && feed == "TOPS"@)
}

/// The trading day that `text` names in the compact form, if any.
pub fn trading_date(text: &str) -> (r: Option<CalendarDate>)
    ensures
        r == trading_date_of(text@),
        r matches Some(date) ==> date.is_valid(),
{
    match parse_with_format(text, COMPACT_FORMAT) {
        Some(date) => if 0 <= date.year && date.year <= 9999 {
            Some(date)
        } else {
            None
        },
        None => None,
    }
}

impl HistEntry {
    /// Tells whether the entry's feed is one that the switches ask for.
    pub fn is_selected(&self, tops: bool, deep: bool, dpls: bool) -> (b: bool)
        ensures
            b == feed_is_selected(self.feed@, tops, deep, dpls),
    {
        let feed = self.feed.as_str();
        (deep && same_text(feed, "DEEP")) || (dpls && same_text(feed, "DPLS")) || (tops
            && same_text(feed, "TOPS"))
    }

    /// The name of the file that the entry is saved as: the feed, a hyphen,
    /// the trading day written with hyphens, and `.pcap.gz`. `None` where the
    /// entry's date names no day.
    pub fn file_name(&self) -> (r: Option<String>)
        ensures
            match trading_date_of(self.date@) {
                Some(date) => r matches Some(name) && name@ == self.feed@ + seq!['-']
                    + hyphenated_text(date) + ".pcap.gz"@,
                None => r is None,
            },
    {
        match trading_date(self.date.as_str()) {
            Some(date) => {
                let mut name = self.feed.clone();
                name.push('-');
                name.append(hyphenated(&date).as_str());
                name.append(".pcap.gz");
                Some(name)
            },
            None => None,
        }
    }
}

} // verus!
