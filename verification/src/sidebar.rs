//! The side panel's tabs and the rules of its node form.
use vstd::prelude::*;
use crate::text::{chars_of, trim, trim_exec};

verus! {

/// A tab of the side panel.
#[derive(Clone, Copy, Debug, PartialEq, Eq, Structural)]
pub enum TabType {
    General,
    Description,
    ProgressNotes,
    Info,
}

/// The label of a tab.
pub open spec fn tab_title(t: TabType) -> Seq<char> {
    match t {
        TabType::General => seq!['G', 'e', 'n', 'e', 'l'],
        TabType::Description => seq!['A', 'ç', 'ı', 'k', 'l', 'a', 'm', 'a'],
        TabType::ProgressNotes => seq!['İ', 'l', 'e', 'r', 'l', 'e', 'm', 'e', ' ', 'N', 'o', 't', 'l', 'a', 'r', 'ı'],
        TabType::Info => seq!['B', 'i', 'l', 'g', 'i', ' ', '&', ' ', 'S', 'e', 'v', 'i', 'y', 'e'],
    }
}

/// The Material Symbols glyph of a tab.
pub open spec fn tab_icon(t: TabType) -> Seq<char> {
    match t {
        TabType::General => seq!['\u{e8b8}'],
        TabType::Description => seq!['\u{e873}'],
        TabType::ProgressNotes => seq!['\u{e85d}'],
        TabType::Info => seq!['\u{e88e}'],
    }
}

impl TabType {
    /// The label of the tab.
    pub fn title(&self) -> (res: &'static str)
        ensures
            res@ == tab_title(*self),
    {
        match self {
            TabType::General => {
                proof {
                    reveal_strlit("Genel");
                }
                "Genel"
            },
            TabType::Description => {
                proof {
                    reveal_strlit("Açıklama");
                }
                "Açıklama"
            },
            TabType::ProgressNotes => {
                proof {
                    reveal_strlit("İlerleme Notları");
                }
                "İlerleme Notları"
            },
            TabType::Info => {
                proof {
                    reveal_strlit("Bilgi & Seviye");
                }
                "Bilgi & Seviye"
            },
        }
    }

    /// The icon glyph of the tab.
    pub fn icon(&self) -> (res: &'static str)
        ensures
            res@ == tab_icon(*self),
    {
        match self {
            TabType::General => {
                proof {
                    reveal_strlit("\u{e8b8}");
                }
                "\u{e8b8}"
            },
            TabType::Description => {
                proof {
                    reveal_strlit("\u{e873}");
                }
                "\u{e873}"
            },
            TabType::ProgressNotes => {
                proof {
                    reveal_strlit("\u{e85d}");
                }
                "\u{e85d}"
            },
            TabType::Info => {
                proof {
                    reveal_strlit("\u{e88e}");
                }
                "\u{e88e}"
            },
        }
    }
}

/// Whether a node form may be saved: its title is not blank.
pub fn is_valid_title(title: &str) -> (res: bool)
    ensures
        res == (trim(title@).len() > 0),
{
    let t = trim_exec(&chars_of(title));
    t.len() > 0
}

} // verus!
