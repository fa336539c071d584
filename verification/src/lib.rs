//! Decides, for locally installed applications, whether a newer release is
//! advertised in a loosely structured text catalog.
//!
//! The pipeline has three verified stages: an inventory stage that turns a
//! directory name and a descriptor file's text into a [`LocalFoundApp`]
//! (`inventory`), a catalog stage that scans raw catalog text for entries
//! naming known applications (`catalog`), and a resolver that picks, per
//! application, the best strictly newer catalog entry (`resolve`). Dotted
//! version strings are ordered by `version`. Fetching the catalog text and
//! walking the filesystem are the caller's business: every function here is
//! a pure computation on strings.
#![allow(unused_imports)]
use vstd::prelude::*;

pub mod catalog;
pub mod inventory;
pub mod resolve;
pub mod text;
pub mod version;

verus! {

/// Mathematical content of a catalog entry: one advertised release.
pub ghost struct EntryView {
    pub name: Seq<char>,
    pub version: Seq<char>,
    pub magnet: Seq<char>,
}

/// Mathematical content of a locally installed application.
pub ghost struct LocalView {
    pub name: Seq<char>,
    pub version: Seq<char>,
    pub newest_online: Option<EntryView>,
}

/// A catalog entry: an advertised release of a known application.
/// `version` and `magnet` are empty when extraction found nothing.
#[derive(Clone)]
pub struct OnlineFoundApp {
    pub version: String,
    pub name: String,
    pub magnet: String,
}

impl View for OnlineFoundApp {
    type V = EntryView;

    open spec fn view(&self) -> EntryView {
        EntryView { name: self.name@, version: self.version@, magnet: self.magnet@ }
    }
}

/// A locally installed application; `newest_online` holds the best strictly
/// newer catalog entry once the resolver has run, and `None` otherwise.
pub struct LocalFoundApp {
    pub version: String,
    pub name: String,
    pub newest_online: Option<OnlineFoundApp>,
}

impl View for LocalFoundApp {
    type V = LocalView;

    open spec fn view(&self) -> LocalView {
        LocalView {
            name: self.name@,
            version: self.version@,
            newest_online: match self.newest_online {
                Some(e) => Some(e@),
                None => None,
            },
        }
    }
}

} // verus!
