//! What the window keeps between frames.
use vstd::prelude::*;
use vstd::string::{StringExecFns, StrSliceExecFns};

verus! {

/// The cookie-import panel's state: a chosen file, an address to open,
/// and the last thing worth telling the user.
pub struct CookieImportState {
    pub url_to_open: String,
    pub last_status: Option<String>,
    pub last_path: Option<String>,
    pub show_dialog: bool,
}

impl Default for CookieImportState {
    /// A fresh panel: nothing chosen, nothing to report.
    fn default() -> (r: CookieImportState)
        ensures
            r.url_to_open@ == Seq::<char>::empty(),
            r.last_status is None,
            r.last_path is None,
            !r.show_dialog,
    {
        CookieImportState {
            url_to_open: String::new(),
            last_status: None,
            last_path: None,
            show_dialog: false,
        }
    }
}

/// Shorten a text to at most `max` characters for a card, marking the
/// cut with an ellipsis; a text that fits passes unchanged.
pub fn clip(s: &str, max: usize) -> (r: String)
    ensures
        s@.len() > max ==> r@ == s@.subrange(0, max as int) + "\u{2026}"@,
        s@.len() <= max ==> r@ == s@,
{
    let n = s.unicode_len();
    if n > max {
        let mut out: String = s.substring_char(0, max).to_owned();
        out.append("\u{2026}");
        out
    } else {
        s.to_owned()
    }
}

} // verus!
