use crate::lot::DEFAULT_LOT;
use vstd::prelude::*;
use vstd::string::{StrSliceExecFns, StringExecFns};

verus! {

/// The separator between a lot name and a label.
pub open spec fn is_sep_at(s: Seq<char>, i: int) -> bool {
    0 <= i && i + 1 < s.len() && s[i] == ':' && s[i + 1] == ':'
}

/// Where the last separator in `s[..end]` starts, or -1 when there is none.
pub open spec fn last_sep_before(s: Seq<char>, end: int) -> int
    decreases end,
{
    if end < 2 || end > s.len() {
        -1
    } else if s[end - 2] == ':' && s[end - 1] == ':' {
        end - 2
    } else {
        last_sep_before(s, end - 1)
    }
}

/// The name of the default lot, as text.
pub open spec fn default_lot() -> Seq<char> {
    seq!['m', 'a', 'i', 'n']
}

/// The lot and the label that a path names: the text after the last `::`
/// is the label, the text before it the lot; with no `::`, or nothing
/// before it, the lot is the default one.
pub open spec fn parse_spec(s: Seq<char>) -> (Seq<char>, Seq<char>) {
    let i = last_sep_before(s, s.len() as int);
    if i < 0 {
        (default_lot(), s)
    } else if i == 0 {
        (default_lot(), s.subrange(2, s.len() as int))
    } else {
        (s.subrange(0, i), s.subrange(i + 2, s.len() as int))
    }
}

/// A record's address: the lot's name and the record's label, written
/// `lot::label`.
#[derive(Debug, PartialEq, Eq)]
pub struct Path {
    pub lot: String,
    pub label: String,
}

impl Path {
    pub fn new(lot: &str, label: &str) -> (r: Self)
        ensures
            r.lot@ == lot@,
            r.label@ == label@,
    {
        Path { lot: lot.to_string(), label: label.to_string() }
    }

    /// Reads `lot::label`; a path without a lot names the default lot.
    pub fn parse(path: &str) -> (r: Self)
        ensures
            (r.lot@, r.label@) == parse_spec(path@),
    {
        let n = path.unicode_len();
        let mut end: usize = n;
        let mut found: bool = false;
        while end >= 2 && !found
            invariant
                n == path@.len(),
                end <= n,
                last_sep_before(path@, n as int) == (if found {
                    end as int - 2
                } else {
                    last_sep_before(path@, end as int)
                }),
                found ==> end >= 2,
            decreases end + (if found { 0int } else { 1int }),
        {
            if path.get_char(end - 2) == ':' && path.get_char(end - 1) == ':' {
                found = true;
            } else {
                end = end - 1;
            }
        }
        proof {
            reveal_strlit("main");
        }
        if !found {
            return Path { lot: DEFAULT_LOT.to_string(), label: path.to_string() };
        }
        let i = end - 2;
        let label = path.substring_char(end, n).to_string();
        if i == 0 {
            Path { lot: DEFAULT_LOT.to_string(), label }
        } else {
            Path { lot: path.substring_char(0, i).to_string(), label }
        }
    }

    /// `lot::label`, or the lot alone when the label is empty.
    pub fn to_text(&self) -> (r: String)
        ensures
            r@ == (if self.label@.len() == 0 {
                self.lot@
            } else {
                self.lot@ + seq![':', ':'] + self.label@
            }),
    {
        let mut text = self.lot.clone();
        if self.label.as_str().unicode_len() != 0 {
            proof {
                reveal_strlit("::");
            }
            text.append("::");
            text.append(self.label.as_str());
        }
        text
    }
}

} // verus!
