//! Seed-list records consumed by the bulk-export strategies.
//!
//! The list itself is loaded by a collaborator outside the library; the
//! library only reads the plain records.

use vstd::prelude::*;

verus! {

/// One seed-list row: a URL and its export flag (0 = excluded,
/// 1 = single-document export, 2 = locale-expansion export).
#[derive(Debug, Clone)]
pub struct KbItem {
    pub url: String,
    pub pdf_include: u8,
}

impl KbItem {
    /// The row as a plain pair of views.
    pub open spec fn view_pair(self) -> (Seq<char>, u8) {
        (self.url@, self.pdf_include)
    }
}

/// The view of each row in a sequence.
pub open spec fn kb_views(v: Seq<KbItem>) -> Seq<(Seq<char>, u8)> {
    v.map_values(|r: KbItem| r.view_pair())
}

} // verus!
